//! Tags that sort counters into bins.
use vstd::prelude::*;

verus! {

/// The lower ends of the bins for the number of retries.
pub const RETRY_COUNT_BINS: [i32; 6] = [0, 1, 2, 5, 10, 25];

/// The lower ends of the bins for the greatest number of retries.
pub const MAX_RETRIES_BINS: [i32; 5] = [0, 1, 5, 10, 30];

/// The decimal digit for a number below ten.
pub open spec fn digit(d: int) -> char {
    (d + '0' as int) as char
}

/// The decimal digits of a number, without leading zeros.
pub open spec fn digits(n: nat) -> Seq<char>
    decreases n,
{
    if n < 10 {
        seq![digit(n as int)]
    } else {
        digits(n / 10).push(digit((n % 10) as int))
    }
}

/// The decimal text of a number, with a minus sign in front of a negative one.
pub open spec fn decimal(n: int) -> Seq<char> {
    if n < 0 {
        seq!['-'] + digits((-n) as nat)
    } else {
        digits(n as nat)
    }
}

/// The text of a decimal digit.
fn digit_to_str(d: u32) -> (text: &'static str)
    requires
        d < 10,
    ensures
        text@ == seq![digit(d as int)],
{
    proof {
        reveal_strlit("0");
        reveal_strlit("1");
        reveal_strlit("2");
        reveal_strlit("3");
        reveal_strlit("4");
        reveal_strlit("5");
        reveal_strlit("6");
        reveal_strlit("7");
        reveal_strlit("8");
        reveal_strlit("9");
    }
    match d {
        0 => "0",
        1 => "1",
        2 => "2",
        3 => "3",
        4 => "4",
        5 => "5",
        6 => "6",
        7 => "7",
        8 => "8",
        _ => "9",
    }
}

/// Writes a number in decimal.
fn u32_to_string(n: u32) -> (text: String)
    ensures
        text@ == digits(n as nat),
    decreases n,
{
    if n < 10 {
        digit_to_str(n).to_owned()
    } else {
        let mut text = u32_to_string(n / 10);
        text.append(digit_to_str(n % 10));
        assert(text@ =~= digits((n / 10) as nat).push(digit((n % 10) as int)));
        text
    }
}

/// Writes a number in decimal, with a minus sign in front of a negative one.
fn i32_to_string(n: i32) -> (text: String)
    ensures
        text@ == decimal(n as int),
{
    if n < 0 {
        let mut text = "-".to_owned();
        text.append(u32_to_string((-(n as i64)) as u32).as_str());
        proof {
            reveal_strlit("-");
            assert(text@ =~= seq!['-'] + digits((-n) as nat));
        }
        text
    } else {
        u32_to_string(n as u32)
    }
}

/// The last position of a bin that the counter has reached, -1 where there is none.
pub open spec fn last_reached(counter: i32, bins: Seq<i32>) -> int
    decreases bins.len(),
{
    if bins.len() == 0 {
        -1
    } else if counter >= bins.last() {
        bins.len() - 1
    } else {
        last_reached(counter, bins.drop_last())
    }
}

/// The tag of a counter: the last bin that it has reached and the bin after it, or `-inf` and `inf`
/// where these do not exist; `none` where there is no counter.
pub open spec fn bin_tag(counter: Option<i32>, bins: Seq<i32>) -> Seq<char> {
    match counter {
        None => "none"@,
        Some(counter) => {
            let reached = last_reached(counter, bins);
            let start = if reached >= 0 {
                decimal(bins[reached] as int)
            } else {
                "-inf"@
            };
            let end = if reached + 1 < bins.len() {
                decimal(bins[reached + 1] as int)
            } else {
                "inf"@
            };
            start + "_"@ + end
        },
    }
}

/// The tag of a counter.
pub fn bin_counter_to_tag(counter: Option<i32>, bins: &Vec<i32>) -> (tag: String)
    ensures
        tag@ == bin_tag(counter, bins@),
{
    match counter {
        None => "none".to_owned(),
        Some(counter) => {
            let mut bin_start = "-inf".to_owned();
            let mut bin_end = "inf".to_owned();
            let mut left: usize = bins.len();
            assert(bins@.take(left as int) =~= bins@);
            while left > 0
                invariant_except_break
                    bin_start@ == "-inf"@,
                invariant
                    left <= bins@.len(),
                    last_reached(counter, bins@) == last_reached(counter, bins@.take(left as int)),
                    bin_end@ == (if left < bins@.len() {
                        decimal(bins@[left as int] as int)
                    } else {
                        "inf"@
                    }),
                ensures
                    left == last_reached(counter, bins@) + 1,
                    bin_start@ == (if left > 0 {
                        decimal(bins@[left - 1] as int)
                    } else {
                        "-inf"@
                    }),
                    bin_end@ == (if left < bins@.len() {
                        decimal(bins@[left as int] as int)
                    } else {
                        "inf"@
                    }),
                decreases left,
            {
                let bin: i32 = bins[left - 1];
                assert(bins@.take(left as int).drop_last() =~= bins@.take(left - 1));
                if counter >= bin {
                    bin_start = i32_to_string(bin);
                    break;
                }
                bin_end = i32_to_string(bin);
                left = left - 1;
            }
            let mut tag = bin_start;
            tag.append("_");
            tag.append(bin_end.as_str());
            tag
        },
    }
}

/// A counter has reached the bin that its tag begins with, and none of the bins after it.
pub proof fn lemma_last_reached(counter: i32, bins: Seq<i32>)
    ensures
        -1 <= last_reached(counter, bins) < bins.len(),
        last_reached(counter, bins) >= 0 ==> bins[last_reached(counter, bins)] <= counter,
        forall|i: int| last_reached(counter, bins) < i < bins.len() ==> counter < #[trigger] bins[i],
    decreases bins.len(),
{
    if bins.len() > 0 && counter < bins.last() {
        lemma_last_reached(counter, bins.drop_last());
        assert forall|i: int| last_reached(counter, bins) < i < bins.len() implies counter
            < #[trigger] bins[i] by {
            if i < bins.len() - 1 {
                assert(bins.drop_last()[i] == bins[i]);
            }
        }
    }
}

/// Two counters have the same tag if and only if they have reached the same last bin, however the
/// bins are ordered.
pub proof fn lemma_tags_tell_bins_apart(first: i32, second: i32, bins: Seq<i32>)
    ensures
        (bin_tag(Some(first), bins) == bin_tag(Some(second), bins)) <==> (last_reached(first, bins)
            == last_reached(second, bins)),
{
    lemma_last_reached(first, bins);
    lemma_last_reached(second, bins);
    if bin_tag(Some(first), bins) == bin_tag(Some(second), bins) {
        let a = last_reached(first, bins);
        let b = last_reached(second, bins);
        let start_a = bin_start(first, bins);
        let start_b = bin_start(second, bins);
        lemma_start_text(first, bins);
        lemma_start_text(second, bins);
        reveal_strlit("_");
        reveal_strlit("-inf");
        let tag = bin_tag(Some(first), bins);
        assert(tag[start_a.len() as int] == '_');
        assert(tag[start_b.len() as int] == '_');
        assert forall|i: int| 0 <= i < start_a.len() implies tag[i] == start_a[i] by {}
        assert forall|i: int| 0 <= i < start_b.len() implies tag[i] == start_b[i] by {}
        assert(start_a.len() == start_b.len());
        assert(start_a =~= start_b);
        if a >= 0 && b >= 0 {
            lemma_decimal_injective(bins[a] as int, bins[b] as int);
        } else if a >= 0 {
            assert(start_a[1] == 'i');
        } else if b >= 0 {
            assert(start_b[1] == 'i');
        }
    }
}

/// The first half of a tag.
spec fn bin_start(counter: i32, bins: Seq<i32>) -> Seq<char> {
    if last_reached(counter, bins) >= 0 {
        decimal(bins[last_reached(counter, bins)] as int)
    } else {
        "-inf"@
    }
}

/// The first half of a tag holds no separator, and only the one without a number holds a letter.
proof fn lemma_start_text(counter: i32, bins: Seq<i32>)
    ensures
        forall|i: int|
            0 <= i < bin_start(counter, bins).len() ==> #[trigger] bin_start(counter, bins)[i]
                != '_',
        last_reached(counter, bins) >= 0 ==> (forall|i: int|
            0 <= i < bin_start(counter, bins).len() ==> #[trigger] bin_start(counter, bins)[i]
                != 'i'),
{
    reveal_strlit("-inf");
    if last_reached(counter, bins) >= 0 {
        let n = bins[last_reached(counter, bins)] as int;
        lemma_digits_are_digits(if n < 0 {
            (-n) as nat
        } else {
            n as nat
        });
    }
}

/// The text of a number is made of digits, one at least.
proof fn lemma_digits_are_digits(n: nat)
    ensures
        digits(n).len() > 0,
        forall|i: int| 0 <= i < digits(n).len() ==> '0' <= #[trigger] digits(n)[i] <= '9',
    decreases n,
{
    if n >= 10 {
        lemma_digits_are_digits(n / 10);
    }
}

/// Different numbers have different texts.
pub proof fn lemma_decimal_injective(m: int, n: int)
    requires
        decimal(m) == decimal(n),
    ensures
        m == n,
{
    let a = if m < 0 {
        (-m) as nat
    } else {
        m as nat
    };
    let b = if n < 0 {
        (-n) as nat
    } else {
        n as nat
    };
    lemma_digits_are_digits(a);
    lemma_digits_are_digits(b);
    if m < 0 && n < 0 {
        assert(decimal(m).skip(1) =~= digits(a));
        assert(decimal(n).skip(1) =~= digits(b));
    } else if m < 0 {
        assert(decimal(m)[0] == '-');
        assert('0' <= digits(b)[0]);
    } else if n < 0 {
        assert(decimal(n)[0] == '-');
        assert('0' <= digits(a)[0]);
    }
    lemma_digits_injective(a, b);
}

proof fn lemma_digits_injective(m: nat, n: nat)
    requires
        digits(m) == digits(n),
    ensures
        m == n,
    decreases m,
{
    lemma_digits_are_digits(m / 10);
    lemma_digits_are_digits(n / 10);
    assert(digits(m).last() == digit((m % 10) as int));
    assert(digits(n).last() == digit((n % 10) as int));
    if m >= 10 && n >= 10 {
        assert(digits(m).drop_last() =~= digits(m / 10));
        assert(digits(n).drop_last() =~= digits(n / 10));
        lemma_digits_injective(m / 10, n / 10);
    }
}

/// A tag names the last bin that the counter has reached and the bin that follows it in the list, with
/// an underscore between them; before the first and behind the last bin it says so. Without a counter
/// there is no bin to name.
pub proof fn lemma_bin_tag(counter: i32, bins: Seq<i32>, reached: int)
    requires
        -1 <= reached < bins.len(),
        reached >= 0 ==> bins[reached] <= counter,
        forall|i: int| reached < i < bins.len() ==> counter < #[trigger] bins[i],
    ensures
        bin_tag(None, bins) == "none"@,
        0 <= reached < bins.len() - 1 ==> bin_tag(Some(counter), bins) == decimal(
            bins[reached] as int,
        ) + "_"@ + decimal(bins[reached + 1] as int),
        0 <= reached == bins.len() - 1 ==> bin_tag(Some(counter), bins) == decimal(
            bins[reached] as int,
        ) + "_"@ + "inf"@,
        reached == -1 && bins.len() > 0 ==> bin_tag(Some(counter), bins) == "-inf"@ + "_"@
            + decimal(bins[0] as int),
        bins.len() == 0 ==> bin_tag(Some(counter), bins) == "-inf"@ + "_"@ + "inf"@,
{
    lemma_last_reached(counter, bins);
    let last = last_reached(counter, bins);
    if last < reached {
        assert(counter < bins[reached]);
    } else if reached < last {
        assert(counter < bins[last]);
    }
}

} // verus!
