//! What the cluster publishes about its nodes.
use vstd::prelude::*;

use crate::text::{clone_optional_text, optional_text};

verus! {

/// What the cluster publishes about one of its nodes.
pub struct ContactInfo {
    /// The node's public key, in base 58.
    pub pubkey: String,
    /// The socket address of the node's TPU port.
    pub tpu: Option<String>,
    /// The socket address of the node's QUIC TPU port.
    pub tpu_quic: Option<String>,
}

/// The mathematical content of a [`ContactInfo`].
pub struct ContactInfoView {
    pub pubkey: Seq<char>,
    pub tpu: Option<Seq<char>>,
    pub tpu_quic: Option<Seq<char>>,
}

impl View for ContactInfo {
    type V = ContactInfoView;

    open spec fn view(&self) -> ContactInfoView {
        ContactInfoView {
            pubkey: self.pubkey@,
            tpu: optional_text(self.tpu),
            tpu_quic: optional_text(self.tpu_quic),
        }
    }
}

/// The contents of a list of contact infos.
pub open spec fn contact_views(infos: Seq<ContactInfo>) -> Seq<ContactInfoView> {
    infos.map_values(|info: ContactInfo| info@)
}

impl Clone for ContactInfo {
    fn clone(&self) -> (copy: Self)
        ensures
            copy@ == self@,
            copy.pubkey@ == self.pubkey@,
            copy.tpu is Some == self.tpu is Some,
            self.tpu is Some ==> copy.tpu->0@ == self.tpu->0@,
            copy.tpu_quic is Some == self.tpu_quic is Some,
            self.tpu_quic is Some ==> copy.tpu_quic->0@ == self.tpu_quic->0@,
    {
        ContactInfo {
            pubkey: self.pubkey.clone(),
            tpu: clone_optional_text(&self.tpu),
            tpu_quic: clone_optional_text(&self.tpu_quic),
        }
    }
}

/// The content of a list of contact infos has an entry for each of them, in the same order, and the
/// entry says of the key and of both addresses what the contact info says.
pub proof fn lemma_contact_views(infos: Seq<ContactInfo>, i: int)
    requires
        0 <= i < infos.len(),
    ensures
        contact_views(infos).len() == infos.len(),
        contact_views(infos)[i].pubkey == infos[i].pubkey@,
        contact_views(infos)[i].tpu is Some <==> infos[i].tpu is Some,
        infos[i].tpu is Some ==> contact_views(infos)[i].tpu->0 == infos[i].tpu->0@,
        contact_views(infos)[i].tpu_quic is Some <==> infos[i].tpu_quic is Some,
        infos[i].tpu_quic is Some ==> contact_views(infos)[i].tpu_quic->0 == infos[i].tpu_quic->0@,
{
}

} // verus!
