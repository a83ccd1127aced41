//! Script identities: content hashes of scripts, memoized per batch.
use crate::table::Table;
use crate::types::{Digest, Script};
use vstd::prelude::*;
use vstd::string::{is_ascii, string_is_ascii};

verus! {

/// The SHA-256 digest of the UTF-8 bytes of a text.
pub uninterp spec fn text_hash_of(text: Seq<char>) -> Seq<u8>;

/// The canonical single-signature script of a base58 public key, if the key
/// parses.
pub uninterp spec fn single_sig_of(issuer: Seq<char>) -> Option<Seq<char>>;

/// Relies on dubp's `Hash::compute`: SHA-256 of the given bytes, a function
/// of the text alone.
#[verifier::external_body]
fn hash_text(text: &str) -> (r: Digest)
    ensures
        r@ == text_hash_of(text@),
{
    Digest { bytes: dubp::crypto::hashs::Hash::compute(text.as_bytes()).0 }
}

/// The single-signature script of an issuer key as written in a dividend
/// source. A key that is not ASCII, or has 256 characters or more, is no key.
pub open spec fn issuer_script(issuer: &String) -> Option<Seq<char>> {
    if string_is_ascii(issuer) && issuer@.len() < 256 {
        single_sig_of(issuer@)
    } else {
        None
    }
}

/// Relies on dubp's ed25519 `PublicKey::from_base58` to read the key and on
/// `WalletScriptV10::single_sig(..).to_string()` for the script's text. The
/// base58 reader slices the text by bytes and counts leading '1's in a `u8`,
/// so only ASCII keys of under 256 characters are handed to it.
#[verifier::external_body]
fn single_sig_text(issuer: &str) -> (r: Option<String>)
    requires
        is_ascii(issuer),
        issuer@.len() < 256,
    ensures
        match r {
            Some(t) => single_sig_of(issuer@) == Some(t@),
            None => single_sig_of(issuer@).is_none(),
        },
{
    match <dubp::crypto::keys::ed25519::PublicKey as dubp::crypto::keys::PublicKey>::from_base58(
        issuer,
    ) {
        Ok(pk) => Some(dubp::wallet::prelude::WalletScriptV10::single_sig(pk).to_string()),
        Err(_) => None,
    }
}

/// The single-signature script of a base58 public key; `None` where the key
/// does not parse.
pub fn single_sig_script(issuer: &String) -> (r: Option<Script>)
    ensures
        match r {
            Some(s) => issuer_script(issuer) == Some(s@),
            None => issuer_script(issuer).is_none(),
        },
{
    if !issuer.is_ascii() || issuer.as_str().unicode_len() >= 256 {
        return None;
    }
    match single_sig_text(issuer.as_str()) {
        Some(text) => Some(Script { text }),
        None => None,
    }
}

/// Script-to-hash memo of one processing batch.
pub struct ScriptsHash {
    pub(crate) table: Table<Script, Digest>,
}

impl View for ScriptsHash {
    type V = Map<Seq<char>, Digest>;

    closed spec fn view(&self) -> Map<Seq<char>, Digest> {
        self.table@
    }
}

impl ScriptsHash {
    /// Every memoized hash is the hash of its script.
    pub closed spec fn wf(&self) -> bool {
        &&& self.table.wf()
        &&& forall|s: Seq<char>| #[trigger]
            self@.contains_key(s) ==> self@[s]@ == text_hash_of(s)
    }

    pub fn new() -> (r: ScriptsHash)
        ensures
            r.wf(),
            r@ == Map::<Seq<char>, Digest>::empty(),
    {
        ScriptsHash { table: Table::new() }
    }

    fn lookup(&self, script: &Script) -> (r: Option<Digest>)
        requires
            self.wf(),
        ensures
            r == (if self@.contains_key(script@) {
                Some(self@[script@])
            } else {
                None::<Digest>
            }),
            r matches Some(h) ==> h@ == text_hash_of(script@),
    {
        match self.table.get(script) {
            Some(h) => Some(*h),
            None => None,
        }
    }

    /// Number of memoized scripts.
    pub fn len(&self) -> (r: usize)
        requires
            self.wf(),
        ensures
            r == self@.len(),
    {
        self.table.len()
    }
}

/// The hash of `script`: taken from the memo where it is there, else computed
/// and memoized. A second call on the same script finds it and leaves the memo
/// as it is.
pub fn get_script_hash(script: &Script, scripts_hash: &mut ScriptsHash) -> (r: Digest)
    requires
        old(scripts_hash).wf(),
    ensures
        final(scripts_hash).wf(),
        r@ == text_hash_of(script@),
        final(scripts_hash)@.contains_key(script@),
        final(scripts_hash)@[script@] == r,
        old(scripts_hash)@.contains_key(script@) ==> final(scripts_hash)@ == old(scripts_hash)@,
        !old(scripts_hash)@.contains_key(script@) ==> final(scripts_hash)@ == old(
            scripts_hash,
        )@.insert(script@, r),
{
    let cached = scripts_hash.lookup(script);
    if let Some(h) = cached {
        return h;
    }
    let h = hash_text(script.text.as_str());
    scripts_hash.table.upsert(script.duplicate(), h);
    h
}

} // verus!
