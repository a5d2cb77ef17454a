//! Settings that come as text.
use vstd::prelude::*;

use crate::keys::{key_views, optional_key_views, parse_pubkeys, text_pubkey, text_pubkeys};
use crate::metrics::{decimal, digit, digits};
use crate::text::{lemma_texts, texts};

verus! {

/// The lamports that a transaction has to pay for its priority where nothing else is set.
pub const DEFAULT_MIN_TRANSACTION_FEE: u64 = 30_000;

/// The milliseconds between two retry rounds where nothing else is set.
pub const DEFAULT_TXN_SEND_RETRY_INTERVAL: u64 = 1_000;

/// Whether a character is a decimal digit.
pub open spec fn is_digit(c: char) -> bool {
    '0' <= c <= '9'
}

/// The number that a list of decimal digits stands for.
pub open spec fn digits_value(digits: Seq<char>) -> nat
    decreases digits.len(),
{
    if digits.len() == 0 {
        0
    } else {
        10 * digits_value(digits.drop_last()) + (digits.last() as int - '0' as int) as nat
    }
}

/// Whether a text is made of decimal digits, one at least.
pub open spec fn is_digits(text: Seq<char>) -> bool {
    &&& text.len() > 0
    &&& forall|i: int| 0 <= i < text.len() ==> is_digit(#[trigger] text[i])
}

/// The number that a text stands for: decimal digits, one at least, with or without a plus sign in
/// front of them. Every other text stands for none.
pub open spec fn text_value(text: Seq<char>) -> Option<nat> {
    let digits = if text.len() > 0 && text[0] == '+' {
        text.skip(1)
    } else {
        text
    };
    if is_digits(digits) {
        Some(digits_value(digits))
    } else {
        None
    }
}

/// The number that a text stands for, where it fits into 64 bits.
pub open spec fn u64_value(text: Seq<char>) -> Option<u64> {
    match text_value(text) {
        Some(n) => if n <= u64::MAX {
            Some(n as u64)
        } else {
            None
        },
        None => None,
    }
}

/// What a number setting comes to: the number that its text stands for, or the default where there
/// is no text.
pub open spec fn setting_value(text: Option<Seq<char>>, default: u64) -> Option<u64> {
    match text {
        Some(text) => u64_value(text),
        None => Some(default),
    }
}

/// The characters of an optional text.
pub open spec fn optional_str(s: Option<&str>) -> Option<Seq<char>> {
    match s {
        Some(text) => Some(text@),
        None => None,
    }
}

/// A longer list of digits does not stand for a smaller number.
proof fn lemma_digits_value_grows(digits: Seq<char>, n: int)
    requires
        0 <= n <= digits.len(),
    ensures
        digits_value(digits.take(n)) <= digits_value(digits),
    decreases digits.len(),
{
    if n == digits.len() {
        assert(digits.take(n) =~= digits);
    } else {
        assert(digits.drop_last().take(n) =~= digits.take(n));
        lemma_digits_value_grows(digits.drop_last(), n);
    }
}

/// Reads the number that a text stands for; `None` where it stands for none, or for one that does not
/// fit into 64 bits.
fn parse_u64(text: &str) -> (number: Option<u64>)
    ensures
        number == u64_value(text@),
{
    let len: usize = text.unicode_len();
    let start: usize = if len > 0 && text.get_char(0) == '+' {
        1
    } else {
        0
    };
    let ghost digits = if start == 1 {
        text@.skip(1)
    } else {
        text@
    };
    if start == len {
        return None;
    }
    let mut number: u64 = 0;
    let mut i: usize = start;
    assert(digits.take(0) =~= Seq::<char>::empty());
    while i < len
        invariant
            start <= i <= len,
            len == text@.len(),
            digits.len() == len - start,
            digits.len() > 0,
            forall|j: int| 0 <= j < digits.len() ==> #[trigger] digits[j] == text@[start + j],
            text_value(text@) == (if is_digits(digits) {
                Some(digits_value(digits))
            } else {
                None
            }),
            forall|j: int| 0 <= j < i - start ==> is_digit(#[trigger] digits[j]),
            number == digits_value(digits.take(i - start)),
        decreases len - i,
    {
        let c: char = text.get_char(i);
        assert(digits[i - start] == c);
        if c < '0' || c > '9' {
            return None;
        }
        let digit: u64 = (c as u32 - '0' as u32) as u64;
        proof {
            assert(digits.take(i + 1 - start).drop_last() =~= digits.take(i - start));
            lemma_digits_value_grows(digits, i + 1 - start);
        }
        if number > (u64::MAX - digit) / 10 {
            return None;
        }
        number = 10 * number + digit;
        i = i + 1;
    }
    assert(digits.take(i - start) =~= digits);
    Some(number)
}

/// The least fee that a transaction has to pay, from the text of its setting; `None` where the text
/// is no number.
pub fn get_min_transaction_fee(setting: Option<&str>) -> (fee: Option<u64>)
    ensures
        fee == setting_value(optional_str(setting), DEFAULT_MIN_TRANSACTION_FEE),
        setting is None ==> fee == Some(30_000u64),
        setting matches Some(text) ==> match fee {
            Some(n) => text_value(text@) == Some(n as nat),
            None => text_value(text@) is None || text_value(text@)->0 > u64::MAX,
        },
{
    match setting {
        Some(text) => parse_u64(text),
        None => Some(DEFAULT_MIN_TRANSACTION_FEE),
    }
}

/// The milliseconds between two retry rounds, from the text of their setting; `None` where the text
/// is no number.
pub fn get_txn_send_retry_interval(setting: Option<&str>) -> (millis: Option<u64>)
    ensures
        millis == setting_value(optional_str(setting), DEFAULT_TXN_SEND_RETRY_INTERVAL),
        setting is None ==> millis == Some(1_000u64),
        setting matches Some(text) ==> match millis {
            Some(n) => text_value(text@) == Some(n as nat),
            None => text_value(text@) is None || text_value(text@)->0 > u64::MAX,
        },
{
    match setting {
        Some(text) => parse_u64(text),
        None => Some(DEFAULT_TXN_SEND_RETRY_INTERVAL),
    }
}

/// Where the cluster is asked where nothing else is set.
pub const DEFAULT_RPC_URL: &'static str = "http://localhost:8899";

/// Where the cluster is asked, from the text of the setting.
pub fn get_rpc_url(setting: Option<&str>) -> (url: String)
    ensures
        url@ == (match optional_str(setting) {
            Some(text) => text,
            None => DEFAULT_RPC_URL@,
        }),
        setting is None ==> url@ == "http://localhost:8899"@,
        setting matches Some(text) ==> url@ == text@,
{
    match setting {
        Some(text) => text.to_owned(),
        None => DEFAULT_RPC_URL.to_owned(),
    }
}

/// The pieces of a text between its commas; a text without commas is its only piece.
pub open spec fn comma_pieces(text: Seq<char>) -> Seq<Seq<char>>
    decreases text.len(),
{
    if text.len() == 0 {
        seq![Seq::<char>::empty()]
    } else {
        let pieces = comma_pieces(text.drop_last());
        if text.last() == ',' {
            pieces.push(Seq::<char>::empty())
        } else {
            pieces.update(pieces.len() - 1, pieces.last().push(text.last()))
        }
    }
}

/// The pieces of a text between its commas.
pub fn split_at_commas(text: &str) -> (pieces: Vec<String>)
    ensures
        texts(pieces@) == comma_pieces(text@),
{
    let len: usize = text.unicode_len();
    let mut pieces: Vec<String> = Vec::new();
    let mut start: usize = 0;
    let mut i: usize = 0;
    assert(text@.take(0) =~= Seq::<char>::empty());
    assert(texts(pieces@).push(text@.subrange(0, 0)) =~= comma_pieces(text@.take(0)));
    while i < len
        invariant
            start <= i <= len,
            len == text@.len(),
            texts(pieces@).push(text@.subrange(start as int, i as int)) == comma_pieces(
                text@.take(i as int),
            ),
        decreases len - i,
    {
        let ghost before = texts(pieces@).push(text@.subrange(start as int, i as int));
        let c: char = text.get_char(i);
        assert(text@.take(i + 1).drop_last() =~= text@.take(i as int));
        assert(before == comma_pieces(text@.take(i as int)));
        if c == ',' {
            let piece = text.substring_char(start, i).to_owned();
            proof {
                pieces@.lemma_push_map_commute(|s: String| s@, piece);
            }
            pieces.push(piece);
            start = i + 1;
            assert(text@.subrange(start as int, i + 1) =~= Seq::<char>::empty());
            assert(texts(pieces@).push(text@.subrange(start as int, i + 1)) =~= comma_pieces(
                text@.take(i + 1),
            ));
        } else {
            assert(text@.subrange(start as int, i + 1) =~= text@.subrange(
                start as int,
                i as int,
            ).push(c));
            assert(texts(pieces@).push(text@.subrange(start as int, i + 1)) =~= comma_pieces(
                text@.take(i + 1),
            ));
        }
        i = i + 1;
    }
    let last = text.substring_char(start, len).to_owned();
    proof {
        assert(text@.take(len as int) =~= text@);
        pieces@.lemma_push_map_commute(|s: String| s@, last);
    }
    pieces.push(last);
    pieces
}

/// All keys of a list in which none is missing; otherwise the text at the first gap.
pub open spec fn all_keys(texts: Seq<Seq<char>>, keys: Seq<Option<Seq<u8>>>) -> Result<
    Seq<Seq<u8>>,
    Seq<char>,
>
    decreases keys.len(),
{
    if keys.len() == 0 {
        Ok(Seq::<Seq<u8>>::empty())
    } else {
        match all_keys(texts, keys.drop_last()) {
            Ok(found) => match keys.last() {
                Some(key) => Ok(found.push(key)),
                None => Err(texts[keys.len() - 1]),
            },
            Err(text) => Err(text),
        }
    }
}

/// The content of the outcome of reading a list of keys.
pub open spec fn keys_outcome(outcome: Result<Vec<[u8; 32]>, String>) -> Result<
    Seq<Seq<u8>>,
    Seq<char>,
> {
    match outcome {
        Ok(keys) => Ok(key_views(keys@)),
        Err(text) => Err(text@),
    }
}

/// All keys of a list in which none is missing; otherwise the text at the first gap.
pub fn collect_pubkeys(pieces: &Vec<String>, keys: &Vec<Option<[u8; 32]>>) -> (outcome: Result<
    Vec<[u8; 32]>,
    String,
>)
    requires
        pieces@.len() == keys@.len(),
    ensures
        keys_outcome(outcome) == all_keys(texts(pieces@), optional_key_views(keys@)),
        (match outcome {
            Ok(found) => found@.len() == keys@.len() && forall|i: int|
                0 <= i < keys@.len() ==> #[trigger] keys@[i] == Some(found@[i]),
            Err(text) => exists|i: int|
                {
                    &&& 0 <= i < keys@.len()
                    &&& #[trigger] keys@[i] is None
                    &&& text@ == pieces@[i]@
                    &&& forall|j: int| 0 <= j < i ==> #[trigger] keys@[j] is Some
                },
        }),
{
    let ghost views = optional_key_views(keys@);
    let mut found: Vec<[u8; 32]> = Vec::new();
    let mut i: usize = 0;
    assert(key_views(found@) =~= Seq::<Seq<u8>>::empty());
    while i < keys.len()
        invariant
            i <= keys@.len(),
            pieces@.len() == keys@.len(),
            views == optional_key_views(keys@),
            all_keys(texts(pieces@), views.take(i as int)) == Ok::<Seq<Seq<u8>>, Seq<char>>(
                key_views(found@),
            ),
            found@.len() == i,
            forall|j: int| 0 <= j < i ==> #[trigger] keys@[j] == Some(found@[j]),
        decreases keys@.len() - i,
    {
        assert(views.take(i + 1).drop_last() =~= views.take(i as int));
        match keys[i] {
            Some(key) => {
                proof {
                    found@.lemma_push_map_commute(|key: [u8; 32]| key@, key);
                }
                found.push(key);
            },
            None => {
                proof {
                    lemma_gap_stays(texts(pieces@), views, i as int);
                }
                return Err(pieces[i].clone());
            },
        }
        i = i + 1;
    }
    assert(views.take(i as int) =~= views);
    Ok(found)
}

/// What follows the first gap does not matter.
proof fn lemma_gap_stays(texts: Seq<Seq<char>>, keys: Seq<Option<Seq<u8>>>, i: int)
    requires
        0 <= i < keys.len(),
        keys[i] is None,
        all_keys(texts, keys.take(i)) is Ok,
    ensures
        all_keys(texts, keys) == Err::<Seq<Seq<u8>>, Seq<char>>(texts[i]),
    decreases keys.len(),
{
    if i == keys.len() - 1 {
        assert(keys.drop_last() =~= keys.take(i));
    } else {
        assert(keys.drop_last().take(i) =~= keys.take(i));
        lemma_gap_stays(texts, keys.drop_last(), i);
    }
}

/// Reads a list of public keys, separated by commas. Where a piece is no public key, the first such
/// piece is returned.
pub fn parse_validator_pubkeys(setting: &str) -> (outcome: Result<Vec<[u8; 32]>, String>)
    ensures
        keys_outcome(outcome) == all_keys(
            comma_pieces(setting@),
            text_pubkeys(comma_pieces(setting@)),
        ),
        (match outcome {
            Ok(keys) => keys@.len() == comma_pieces(setting@).len() && forall|i: int|
                0 <= i < keys@.len() ==> text_pubkey(#[trigger] comma_pieces(setting@)[i]) == Some(
                    keys@[i]@,
                ),
            Err(text) => exists|i: int|
                {
                    &&& 0 <= i < comma_pieces(setting@).len()
                    &&& text_pubkey(#[trigger] comma_pieces(setting@)[i]) is None
                    &&& text@ == comma_pieces(setting@)[i]
                    &&& forall|j: int|
                        0 <= j < i ==> text_pubkey(#[trigger] comma_pieces(setting@)[j]) is Some
                },
        }),
{
    let pieces = split_at_commas(setting);
    let keys = parse_pubkeys(&pieces);
    proof {
        lemma_texts(pieces@, None);
    }
    let ghost texts = comma_pieces(setting@);
    let outcome = collect_pubkeys(&pieces, &keys);
    proof {
        assert forall|i: int| 0 <= i < texts.len() implies pieces@[i]@ == #[trigger] texts[i] by {}
        match &outcome {
            Ok(found) => {
                assert forall|i: int| 0 <= i < found@.len() implies text_pubkey(
                    #[trigger] texts[i],
                ) == Some(found@[i]@) by {
                    assert(keys@[i] == Some(found@[i]));
                }
            },
            Err(text) => {
                let i = choose|i: int|
                    {
                        &&& 0 <= i < keys@.len()
                        &&& #[trigger] keys@[i] is None
                        &&& text@ == pieces@[i]@
                        &&& forall|j: int| 0 <= j < i ==> #[trigger] keys@[j] is Some
                    };
                assert(text_pubkey(texts[i]) is None);
                assert forall|j: int| 0 <= j < i implies text_pubkey(#[trigger] texts[j]) is Some by {
                    assert(keys@[j] is Some);
                }
            },
        }
    }
    outcome
}

/// The pieces, put together again with commas between them.
pub open spec fn joined(pieces: Seq<Seq<char>>) -> Seq<char>
    decreases pieces.len(),
{
    if pieces.len() == 0 {
        Seq::empty()
    } else if pieces.len() == 1 {
        pieces[0]
    } else {
        joined(pieces.drop_last()) + seq![','] + pieces.last()
    }
}

/// A text is made of its pieces with commas between them, and no piece holds a comma.
pub proof fn lemma_comma_pieces(text: Seq<char>)
    ensures
        comma_pieces(text).len() > 0,
        joined(comma_pieces(text)) == text,
        forall|i: int|
            0 <= i < comma_pieces(text).len() ==> !(#[trigger] comma_pieces(text)[i]).contains(','),
    decreases text.len(),
{
    let pieces = comma_pieces(text);
    if text.len() == 0 {
        assert(joined(pieces) =~= text);
    } else {
        let before = comma_pieces(text.drop_last());
        lemma_comma_pieces(text.drop_last());
        if text.last() == ',' {
            assert(pieces.drop_last() =~= before);
            assert(joined(pieces) =~= text);
        } else {
            assert(pieces.drop_last() =~= before.drop_last());
            assert(joined(pieces) =~= joined(before).push(text.last()));
            assert(joined(pieces) =~= text);
            assert(!pieces.last().contains(',')) by {
                assert(!before[before.len() - 1].contains(','));
                if pieces.last().contains(',') {
                    let k = pieces.last().index_of(',');
                    assert(before.last()[k] == ',');
                }
            }
            assert forall|i: int| 0 <= i < pieces.len() implies !(#[trigger] pieces[i]).contains(
                ',',
            ) by {
                if i < pieces.len() - 1 {
                    assert(pieces[i] == before[i]);
                }
            }
        }
    }
}

/// Where no key is missing, all of them are there, in their order.
pub proof fn lemma_all_keys(texts: Seq<Seq<char>>, keys: Seq<Option<Seq<u8>>>)
    ensures
        all_keys(texts, keys) is Ok <==> forall|i: int|
            0 <= i < keys.len() ==> (#[trigger] keys[i]) is Some,
        all_keys(texts, keys) is Ok ==> all_keys(texts, keys)->Ok_0.len() == keys.len() && forall|
            i: int,
        |
            0 <= i < keys.len() ==> (#[trigger] keys[i]) == Some(all_keys(texts, keys)->Ok_0[i]),
    decreases keys.len(),
{
    if keys.len() > 0 {
        let before = keys.drop_last();
        lemma_all_keys(texts, before);
        assert(forall|i: int| 0 <= i < before.len() ==> (#[trigger] keys[i]) == before[i]);
        if all_keys(texts, keys) is Ok {
            assert forall|i: int| 0 <= i < keys.len() implies (#[trigger] keys[i]) == Some(
                all_keys(texts, keys)->Ok_0[i],
            ) by {
                if i < before.len() {
                    assert(before[i] == Some(all_keys(texts, before)->Ok_0[i]));
                }
            }
        } else if forall|i: int| 0 <= i < keys.len() ==> (#[trigger] keys[i]) is Some {
            assert(keys[keys.len() - 1] is Some);
            assert forall|i: int| 0 <= i < before.len() implies (#[trigger] before[i]) is Some by {
                assert(keys[i] is Some);
            }
        }
    }
}

/// Where a key is missing, the outcome is the text at the first gap, whatever follows it.
pub proof fn lemma_first_gap(texts: Seq<Seq<char>>, keys: Seq<Option<Seq<u8>>>, i: int)
    requires
        0 <= i < keys.len(),
        keys[i] is None,
        forall|j: int| 0 <= j < i ==> (#[trigger] keys[j]) is Some,
    ensures
        all_keys(texts, keys) == Err::<Seq<Seq<u8>>, Seq<char>>(texts[i]),
{
    let before = keys.take(i);
    lemma_all_keys(texts, before);
    assert forall|j: int| 0 <= j < before.len() implies (#[trigger] before[j]) is Some by {
        assert(keys[j] is Some);
    }
    lemma_gap_stays(texts, keys, i);
}

/// How a number is read, character by character: a digit behind a number makes it ten times as large
/// and adds its own value; a digit alone, or behind a plus sign, stands for its value; nothing, a plus
/// sign alone, and every text with another character in it stand for no number.
pub proof fn lemma_text_value(text: Seq<char>, c: char)
    ensures
        text_value(Seq::empty()) is None,
        text_value(seq!['+']) is None,
        '0' <= c <= '9' ==> text_value(seq![c]) == Some((c as int - '0' as int) as nat),
        '0' <= c <= '9' ==> text_value(seq!['+', c]) == Some((c as int - '0' as int) as nat),
        '0' <= c <= '9' && text_value(text) is Some ==> text_value(text.push(c)) == Some(
            (10 * text_value(text)->0 + (c as int - '0' as int)) as nat,
        ),
        !('0' <= c <= '9') ==> text_value(seq![c]) is None,
        !('0' <= c <= '9') && text.len() > 0 ==> text_value(text.push(c)) is None,
        text.len() > 0 && text != seq!['+'] && text_value(text) is None ==> text_value(
            text.push(c),
        ) is None,
{
    let longer = text.push(c);
    reveal_with_fuel(digits_value, 3);
    assert(seq!['+'].skip(1).len() == 0);
    assert(seq!['+', c].skip(1) =~= seq![c]);
    assert(seq![c].drop_last() =~= Seq::<char>::empty());
    assert(seq![c][0] == c);
    if '0' <= c <= '9' {
        assert(is_digits(seq![c]));
    } else {
        assert(!is_digit(seq![c][0]));
        if c == '+' {
            assert(seq![c] =~= seq!['+']);
        }
    }
    if text.len() > 0 {
        let signed = text[0] == '+';
        let ours = if signed {
            text.skip(1)
        } else {
            text
        };
        let theirs = if signed {
            longer.skip(1)
        } else {
            longer
        };
        assert(theirs =~= ours.push(c));
        assert(theirs.drop_last() =~= ours);
        assert(theirs.last() == c);
        if is_digits(theirs) {
            assert(is_digit(theirs[theirs.len() - 1]));
            assert forall|i: int| 0 <= i < ours.len() implies is_digit(#[trigger] ours[i]) by {
                assert(theirs[i] == ours[i]);
            }
            if ours.len() == 0 {
                assert(text =~= seq!['+']);
            }
        }
        if is_digits(ours) && '0' <= c <= '9' {
            assert forall|i: int| 0 <= i < theirs.len() implies is_digit(#[trigger] theirs[i]) by {
                if i < ours.len() {
                    assert(theirs[i] == ours[i]);
                }
            }
        }
    }
}

/// A text stands for a number of 64 bits exactly if it stands for a number that fits.
pub proof fn lemma_u64_value(text: Seq<char>)
    ensures
        forall|n: u64| #[trigger] u64_value(text) == Some(n) <==> text_value(text) == Some(n as nat),
{
}

/// A number that is written in decimal is read back as itself. It begins with a zero only if it is
/// zero, and a negative one is written as its opposite behind a minus sign.
pub proof fn lemma_written_number_is_read(n: nat)
    ensures
        text_value(decimal(n as int)) == Some(n),
        n > 0 ==> decimal(n as int)[0] != '0',
        n > 0 ==> decimal(-(n as int)) == seq!['-'] + decimal(n as int),
    decreases n,
{
    if n < 10 {
        lemma_text_value(Seq::empty(), digit(n as int));
    } else {
        lemma_written_number_is_read(n / 10);
        lemma_text_value(digits(n / 10), digit((n % 10) as int));
        assert(digits(n / 10).len() > 0) by {
            lemma_text_value(Seq::empty(), '0');
            assert(digits(n / 10).len() == 0 ==> digits(n / 10) =~= Seq::<char>::empty());
        }
    }
}

} // verus!
