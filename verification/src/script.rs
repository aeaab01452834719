//! Script fragments: parsing Miniscript text for Tapscript, and encoding a
//! parsed fragment to script bytes with its key names resolved.

use crate::error::{BuildError, BuildErrorView};
use crate::key::PublicKey;
use crate::keytab::KeyTable;
use core::str::FromStr;
use sapio_miniscript::bitcoin::secp256k1::XOnlyPublicKey;
use sapio_miniscript::miniscript::iter::PkPkh;
use sapio_miniscript::{Miniscript, Tap, TranslatePk};
use vstd::prelude::*;

verus! {

/// A key that a fragment refers to by name: as a plain key or as the hash of
/// a key.
#[derive(Debug)]
pub enum KeyRef {
    Plain(String),
    Hashed(String),
}

/// What a key reference stands for.
pub enum KeyRefView {
    Plain(Seq<char>),
    Hashed(Seq<char>),
}

impl View for KeyRef {
    type V = KeyRefView;

    open spec fn view(&self) -> KeyRefView {
        match self {
            KeyRef::Plain(name) => KeyRefView::Plain(name@),
            KeyRef::Hashed(name) => KeyRefView::Hashed(name@),
        }
    }
}

/// The references a vector of references stands for.
pub open spec fn spec_key_refs(refs: Seq<KeyRef>) -> Seq<KeyRefView> {
    refs.map_values(|key: KeyRef| key@)
}

/// What the outcome of parsing a fragment stands for.
pub open spec fn spec_parsed_refs(parsed: Result<Vec<KeyRef>, String>) -> Result<
    Seq<KeyRefView>,
    Seq<char>,
> {
    match parsed {
        Ok(refs) => Ok(spec_key_refs(refs@)),
        Err(message) => Err(message@),
    }
}

/// The key references of a fragment that is valid Tapscript Miniscript, in
/// the order in which the fragment is walked from the root, left to right;
/// for any other text, the parser's message.
pub uninterp spec fn fragment_key_refs(text: Seq<char>) -> Result<Seq<KeyRefView>, Seq<char>>;

/// The script bytes of a fragment whose key names stand for the keys that
/// `keys` binds them to.
pub uninterp spec fn fragment_script(text: Seq<char>, keys: Map<Seq<char>, Seq<u8>>) -> Seq<u8>;

/// The error for the first reference that cannot be translated: a key hash,
/// or a name that `keys` lacks. None where every reference resolves.
pub open spec fn spec_first_key_error(
    refs: Seq<KeyRefView>,
    keys: Map<Seq<char>, Seq<u8>>,
) -> Option<BuildErrorView>
    decreases refs.len(),
{
    if refs.len() == 0 {
        None
    } else {
        match refs[0] {
            KeyRefView::Hashed(name) => Some(BuildErrorView::UnsupportedKeyContext(name)),
            KeyRefView::Plain(name) => if keys.contains_key(name) {
                spec_first_key_error(refs.drop_first(), keys)
            } else {
                Some(BuildErrorView::MissingKey(name))
            },
        }
    }
}

/// The script bytes of a fragment under a key table, or the error that stops
/// the translation.
pub open spec fn spec_encode(text: Seq<char>, keys: Map<Seq<char>, Seq<u8>>) -> Result<
    Seq<u8>,
    BuildErrorView,
> {
    match fragment_key_refs(text) {
        Err(message) => Err(BuildErrorView::ScriptParse(message)),
        Ok(refs) => match spec_first_key_error(refs, keys) {
            Some(error) => Err(error),
            None => Ok(fragment_script(text, keys)),
        },
    }
}

/// Calls `Miniscript::<String, Tap>::from_str`, then `iter_pk_pkh` on the
/// result, and hands out the key names in the iterator's order, or the
/// error's text. Trusted: the outcome is `fragment_key_refs` of the text.
#[verifier::external_body]
fn parse_key_refs(text: &str) -> (parsed: Result<Vec<KeyRef>, String>)
    ensures
        spec_parsed_refs(parsed) == fragment_key_refs(text@),
{
    let ast = Miniscript::<String, Tap>::from_str(text).map_err(|error| error.to_string())?;
    let refs = ast.iter_pk_pkh().map(|key| match key {
        PkPkh::PlainPubkey(name) => KeyRef::Plain(name),
        PkPkh::HashedPubkey(name) => KeyRef::Hashed(name),
    });
    Ok(refs.collect())
}

/// Calls `Miniscript::<String, Tap>::from_str`, `translate_pk` with a lookup
/// in `keys` for plain keys and a refusal for key hashes, and `encode` on
/// the result. Trusted: for a fragment that parses and whose references all
/// resolve, the bytes are `fragment_script` of the text and the table.
#[verifier::external_body]
fn encode_resolved(text: &str, keys: &KeyTable) -> (script: Vec<u8>)
    requires
        fragment_key_refs(text@) matches Ok(refs) && spec_first_key_error(refs, keys@) is None,
    ensures
        script@ == fragment_script(text@, keys@),
{
    let ast = Miniscript::<String, Tap>::from_str(text).expect("a fragment that parses");
    let point = |name: &String|
        keys.get(name).and_then(|key| XOnlyPublicKey::from_slice(key.as_bytes()).ok()).ok_or(());
    let translated: Result<Miniscript<XOnlyPublicKey, Tap>, ()> = ast.translate_pk(point, |_| Err(()));
    translated.expect("references that resolve").encode().into_bytes()
}

/// A fragment that has been parsed and type-checked as Tapscript Miniscript:
/// its text and the keys that it refers to.
pub struct Fragment {
    text: String,
    refs: Vec<KeyRef>,
}

impl Fragment {
    #[verifier::type_invariant]
    spec fn parsed(&self) -> bool {
        fragment_key_refs(self.text@) == Ok::<_, Seq<char>>(spec_key_refs(self.refs@))
    }

    /// The text of the fragment.
    pub closed spec fn text(&self) -> Seq<char> {
        self.text@
    }

    /// The key references of the fragment, in the order of the text.
    pub closed spec fn key_refs(&self) -> Seq<KeyRefView> {
        spec_key_refs(self.refs@)
    }

    /// Parses and type-checks a fragment.
    pub fn parse(text: &str) -> (parsed: Result<Fragment, BuildError>)
        ensures
            fragment_key_refs(text@) matches Ok(refs) ==> (parsed matches Ok(fragment)
                && fragment.text() == text@ && fragment.key_refs() == refs),
            fragment_key_refs(text@) matches Err(message) ==> (parsed matches Err(error) && error@
                == BuildErrorView::ScriptParse(message)),
    {
        match parse_key_refs(text) {
            Ok(refs) => Ok(Fragment { text: text.to_owned(), refs }),
            Err(message) => Err(BuildError::ScriptParse(message)),
        }
    }

    /// The key references of the fragment.
    pub fn references(&self) -> (refs: &Vec<KeyRef>)
        ensures
            spec_key_refs(refs@) == self.key_refs(),
            fragment_key_refs(self.text()) == Ok::<_, Seq<char>>(self.key_refs()),
    {
        proof {
            use_type_invariant(self);
        }
        &self.refs
    }

    /// Translates one key reference: a plain key resolves to the key that
    /// `keys` binds its name to, and a key hash is refused.
    pub fn translate_key(key: &KeyRef, keys: &KeyTable) -> (translated: Result<PublicKey, BuildError>)
        ensures
            key@ matches KeyRefView::Plain(name) ==> (keys@.contains_key(name) ==> (
            translated matches Ok(point) && point@ == keys@[name])) && (!keys@.contains_key(name) ==> (
            translated matches Err(error) && error@ == BuildErrorView::MissingKey(name))),
            key@ matches KeyRefView::Hashed(name) ==> (translated matches Err(error) && error@
                == BuildErrorView::UnsupportedKeyContext(name)),
    {
        match key {
            KeyRef::Plain(name) => keys.resolve(name),
            KeyRef::Hashed(name) => Err(BuildError::UnsupportedKeyContext(name.clone())),
        }
    }

    /// Checks that every key reference of the fragment can be translated:
    /// the first key hash, or the first name that `keys` lacks, is the error.
    pub fn check_keys(&self, keys: &KeyTable) -> (checked: Result<(), BuildError>)
        ensures
            spec_first_key_error(self.key_refs(), keys@) matches Some(error) ==> (checked matches Err(
                found,
            ) && found@ == error),
            spec_first_key_error(self.key_refs(), keys@) is None ==> checked is Ok,
    {
        let ghost refs = spec_key_refs(self.refs@);
        let mut at: usize = 0;
        assert(refs.skip(0) =~= refs);
        while at < self.refs.len()
            invariant
                at <= self.refs.len(),
                refs == spec_key_refs(self.refs@),
                spec_first_key_error(refs, keys@) == spec_first_key_error(refs.skip(at as int), keys@),
            decreases self.refs.len() - at,
        {
            assert(refs.skip(at as int)[0] == self.refs@[at as int]@);
            assert(refs.skip(at as int).drop_first() =~= refs.skip(at as int + 1));
            match Fragment::translate_key(&self.refs[at], keys) {
                Err(error) => {
                    return Err(error);
                },
                Ok(_) => {},
            }
            at += 1;
        }
        Ok(())
    }

    /// Encodes the fragment to script bytes, with each key name replaced by
    /// the key that `keys` binds it to. Nothing is encoded unless every
    /// reference resolves.
    pub fn encode(&self, keys: &KeyTable) -> (script: Result<Vec<u8>, BuildError>)
        ensures
            script matches Ok(bytes) ==> spec_encode(self.text(), keys@) == Ok::<_, BuildErrorView>(
                bytes@,
            ),
            script matches Err(error) ==> spec_encode(self.text(), keys@) == Err::<Seq<u8>, _>(
                error@,
            ),
    {
        proof {
            use_type_invariant(self);
        }
        match self.check_keys(keys) {
            Err(error) => Err(error),
            Ok(()) => Ok(encode_resolved(self.text.as_str(), keys)),
        }
    }
}

/// Parses a fragment and encodes it to script bytes under a key table.
pub fn encode(text: &str, keys: &KeyTable) -> (script: Result<Vec<u8>, BuildError>)
    ensures
        script matches Ok(bytes) ==> spec_encode(text@, keys@) == Ok::<_, BuildErrorView>(bytes@),
        script matches Err(error) ==> spec_encode(text@, keys@) == Err::<Seq<u8>, _>(error@),
{
    match Fragment::parse(text) {
        Err(error) => Err(error),
        Ok(fragment) => fragment.encode(keys),
    }
}

} // verus!
