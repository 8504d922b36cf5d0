//! The host side of the plugin boundary: marshalling of strings, parameters and
//! errors, the version gate, and the lookup tables of a loaded plugin's providers.
use vstd::prelude::*;
use vstd::utf8::{decode_utf8, encode_utf8, valid_utf8};

verus! {

/// The version of the plugin interface that this host speaks.
pub const PLUGIN_VERSION: u32 = 1;

/// A byte or item slice crossing the boundary; `None` stands for the null pointer.
#[derive(Debug)]
pub struct Array<T> {
    pub data: Option<Vec<T>>,
}

/// One parameter: its key and its value, both UTF-8.
#[derive(Debug)]
pub struct Param {
    pub key: Array<u8>,
    pub value: Array<u8>,
}

/// What can go wrong when loading or calling a plugin.
#[derive(Debug)]
pub enum Error {
    /// The dynamic library could not be loaded or lacks a symbol; the text says why.
    LibLoadingError(String),
    /// The manifest's version differs: the version expected, then the one found.
    InvalidVersion(u32, u32),
    /// A plugin call failed with this message.
    PluginError(String),
}

pub enum ErrorSpec {
    LibLoadingError(Seq<char>),
    InvalidVersion(u32, u32),
    PluginError(Seq<char>),
}

impl View for Error {
    type V = ErrorSpec;

    open spec fn view(&self) -> ErrorSpec {
        match self {
            Error::LibLoadingError(m) => ErrorSpec::LibLoadingError(m@),
            Error::InvalidVersion(a, b) => ErrorSpec::InvalidVersion(*a, *b),
            Error::PluginError(m) => ErrorSpec::PluginError(m@),
        }
    }
}

/// The text that `String::from_utf8_lossy` makes of some bytes.
pub uninterp spec fn utf8_lossy(b: Seq<u8>) -> Seq<char>;

/// Relies on `String::from_utf8_lossy`: the result depends on the bytes alone, and
/// bytes that are valid UTF-8 come back as the string they encode.
#[verifier::external_body]
fn from_utf8_lossy(b: &[u8]) -> (r: String)
    ensures
        r@ == utf8_lossy(b@),
        valid_utf8(b@) ==> r@ == decode_utf8(b@),
{
    String::from_utf8_lossy(b).into_owned()
}

/// The UTF-8 bytes of a string.
pub fn string_bytes(s: &String) -> (r: Vec<u8>)
    ensures
        r@ == encode_utf8(s@),
{
    let b = s.as_str().as_bytes();
    let mut r: Vec<u8> = Vec::new();
    let mut i: usize = 0;
    while i < b.len()
        invariant
            0 <= i <= b@.len(),
            r@ == b@.take(i as int),
        decreases b@.len() - i,
    {
        r.push(b[i]);
        proof {
            assert(b@.take(i + 1) =~= b@.take(i as int).push(b@[i as int]));
        }
        i = i + 1;
    }
    assert(b@.take(b@.len() as int) =~= b@);
    r
}

/// Hands parameters to a plugin: each key and value as its UTF-8 bytes, in order.
pub fn marshal_params(params: &Vec<(String, String)>) -> (r: Vec<Param>)
    ensures
        r@.len() == params@.len(),
        forall|k: int|
            0 <= k < r@.len() ==> (#[trigger] r@[k]).key.data is Some && r@[k].value.data is Some
                && r@[k].key.data->0@ == encode_utf8(params@[k].0@) && r@[k].value.data->0@
                == encode_utf8(params@[k].1@),
{
    let mut r: Vec<Param> = Vec::new();
    let mut k: usize = 0;
    while k < params.len()
        invariant
            0 <= k <= params@.len(),
            r@.len() == k,
            forall|j: int|
                0 <= j < k ==> (#[trigger] r@[j]).key.data is Some && r@[j].value.data is Some
                    && r@[j].key.data->0@ == encode_utf8(params@[j].0@) && r@[j].value.data->0@
                    == encode_utf8(params@[j].1@),
        decreases params@.len() - k,
    {
        let key = string_bytes(&params[k].0);
        let value = string_bytes(&params[k].1);
        r.push(Param { key: Array { data: Some(key) }, value: Array { data: Some(value) } });
        k = k + 1;
    }
    r
}

/// Turns the outcome of a plugin call into the error-slice convention: null on
/// success, the message's bytes on failure.
pub fn marshal_res(res: Result<(), String>) -> (r: Array<u8>)
    ensures
        res is Ok ==> r.data is None,
        res is Err ==> r.data is Some && r.data->0@ == encode_utf8(res->Err_0@),
{
    match res {
        Ok(_) => Array { data: None },
        Err(err) => Array { data: Some(string_bytes(&err)) },
    }
}

/// The text of a non-null byte slice, with invalid UTF-8 replaced.
pub fn unmarshal_string(s: &Array<u8>) -> (r: String)
    requires
        s.data is Some,
    ensures
        r@ == utf8_lossy(s.data->0@),
        valid_utf8(s.data->0@) ==> r@ == decode_utf8(s.data->0@),
{
    match &s.data {
        Some(b) => from_utf8_lossy(b.as_slice()),
        None => String::new(),
    }
}

/// Reads the error slice a plugin call returned: null is success, anything else a
/// failure whose message is the slice's text.
pub fn unmarshal_err(err: &Array<u8>) -> (r: Result<(), Error>)
    ensures
        err.data is None ==> r is Ok,
        err.data is Some ==> r is Err && r->Err_0@ == ErrorSpec::PluginError(utf8_lossy(err.data->0@)),
{
    match &err.data {
        None => Ok(()),
        Some(_) => Err(Error::PluginError(unmarshal_string(err))),
    }
}

/// Reads the parameters a plugin received: each key and value as text.
pub fn unmarshal_params(params: &Vec<Param>) -> (r: Vec<(String, String)>)
    requires
        forall|k: int| 0 <= k < params@.len() ==> (#[trigger] params@[k]).key.data is Some && params@[k].value.data is Some,
    ensures
        r@.len() == params@.len(),
        forall|k: int|
            0 <= k < r@.len() ==> (#[trigger] r@[k]).0@ == utf8_lossy(params@[k].key.data->0@)
                && r@[k].1@ == utf8_lossy(params@[k].value.data->0@),
        forall|k: int|
            0 <= k < r@.len() && valid_utf8(params@[k].key.data->0@) ==> (#[trigger] r@[k]).0@
                == decode_utf8(params@[k].key.data->0@),
        forall|k: int|
            0 <= k < r@.len() && valid_utf8(params@[k].value.data->0@) ==> (#[trigger] r@[k]).1@
                == decode_utf8(params@[k].value.data->0@),
{
    let mut r: Vec<(String, String)> = Vec::new();
    let mut k: usize = 0;
    while k < params.len()
        invariant
            0 <= k <= params@.len(),
            forall|q: int| 0 <= q < params@.len() ==> (#[trigger] params@[q]).key.data is Some && params@[q].value.data is Some,
            r@.len() == k,
            forall|j: int|
                0 <= j < k ==> (#[trigger] r@[j]).0@ == utf8_lossy(params@[j].key.data->0@)
                    && r@[j].1@ == utf8_lossy(params@[j].value.data->0@),
            forall|j: int|
                0 <= j < k && valid_utf8(params@[j].key.data->0@) ==> (#[trigger] r@[j]).0@
                    == decode_utf8(params@[j].key.data->0@),
            forall|j: int|
                0 <= j < k && valid_utf8(params@[j].value.data->0@) ==> (#[trigger] r@[j]).1@
                    == decode_utf8(params@[j].value.data->0@),
        decreases params@.len() - k,
    {
        let key = unmarshal_string(&params[k].key);
        let value = unmarshal_string(&params[k].value);
        r.push((key, value));
        k = k + 1;
    }
    r
}

/// The version gate: a manifest of another version is refused.
pub fn check_version(version: u32) -> (r: Result<(), Error>)
    ensures
        r is Ok <==> version == PLUGIN_VERSION,
        r is Err ==> r->Err_0@ == ErrorSpec::InvalidVersion(PLUGIN_VERSION, version),
{
    if version != PLUGIN_VERSION {
        Err(Error::InvalidVersion(PLUGIN_VERSION, version))
    } else {
        Ok(())
    }
}

} // verus!

verus! {

/// The position recorded for `k`: the last entry under that name wins.
pub open spec fn position_of(s: Seq<(String, usize)>, k: Seq<char>) -> Option<usize>
    decreases s.len(),
{
    if s.len() == 0 {
        None
    } else if s.last().0@ == k {
        Some(s.last().1)
    } else {
        position_of(s.drop_last(), k)
    }
}

/// Providers of a plugin, looked up by name.
#[derive(Debug)]
pub struct ProviderTable {
    pub entries: Vec<(String, usize)>,
}

impl ProviderTable {
    pub open spec fn get_spec(&self, k: Seq<char>) -> Option<usize> {
        position_of(self.entries@, k)
    }

    /// The position of the provider named `k`.
    pub fn get(&self, k: &String) -> (r: Option<usize>)
        ensures
            r == self.get_spec(k@),
    {
        let mut i = self.entries.len();
        assert(self.entries@.take(i as int) =~= self.entries@);
        while i > 0
            invariant
                0 <= i <= self.entries@.len(),
                position_of(self.entries@.take(i as int), k@) == position_of(self.entries@, k@),
            decreases i,
        {
            proof {
                assert(self.entries@.take(i as int).drop_last() =~= self.entries@.take(i - 1));
            }
            if self.entries[i - 1].0 == *k {
                return Some(self.entries[i - 1].1);
            }
            i = i - 1;
        }
        assert(self.entries@.take(0) =~= Seq::<(String, usize)>::empty());
        None
    }
}

/// Where a lookup finds `q` among `names`: at the last position holding it.
pub open spec fn last_position(names: Seq<String>, q: Seq<char>) -> Option<usize>
    decreases names.len(),
{
    if names.len() == 0 {
        None
    } else if names.last()@ == q {
        Some((names.len() - 1) as usize)
    } else {
        last_position(names.drop_last(), q)
    }
}

pub proof fn lemma_last_position_some(names: Seq<String>, q: Seq<char>)
    requires
        names.len() <= usize::MAX,
    ensures
        last_position(names, q) is Some <==> exists|k: int| 0 <= k < names.len() && (#[trigger] names[k])@ == q,
        last_position(names, q) is Some ==> {
            let k = last_position(names, q)->0 as int;
            0 <= k < names.len() && names[k]@ == q
        },
    decreases names.len(),
{
    if names.len() > 0 {
        lemma_last_position_some(names.drop_last(), q);
        if names.last()@ != q && last_position(names, q) is Some {
            let k = last_position(names, q)->0 as int;
            assert(names.drop_last()[k] == names[k]);
        }
        if names.last()@ != q {
            if exists|k: int| 0 <= k < names.len() && (#[trigger] names[k])@ == q {
                let k = choose|k: int| 0 <= k < names.len() && (#[trigger] names[k])@ == q;
                assert(names.drop_last()[k] == names[k]);
            }
        }
    }
}

/// A table that finds each name at its position in `names`.
pub fn index_names(names: Vec<String>) -> (r: ProviderTable)
    ensures
        forall|q: Seq<char>| #[trigger] r.get_spec(q) == last_position(names@, q),
{
    let ghost all = names@;
    let n = names.len();
    let mut entries: Vec<(String, usize)> = Vec::new();
    let mut k: usize = 0;
    for name in it: names.into_iter()
        invariant
            it.seq() == all,
            k == it.index(),
            all.len() == n,
            entries@.len() == k,
            forall|q: Seq<char>| #[trigger] position_of(entries@, q) == last_position(all.take(k as int), q),
    {
        let ghost before = entries@;
        let ghost nm = name;
        assert(all[k as int] == name);
        entries.push((name, k));
        proof {
            assert(all.take(k + 1).drop_last() =~= all.take(k as int));
            assert(entries@.drop_last() =~= before);
            assert(entries@.last() == (nm, k));
            assert(all.take(k + 1).last() == nm);
            assert forall|q: Seq<char>| #[trigger] position_of(entries@, q) == last_position(all.take(k + 1), q) by {
                assert(position_of(before, q) == last_position(all.take(k as int), q));
            }
        }
        k = k + 1;
    }
    assert(all.take(k as int) =~= all);
    ProviderTable { entries }
}

/// What the host keeps of a loaded plugin's manifest.
#[derive(Debug)]
pub struct PluginIndex {
    pub name: String,
    pub env: ProviderTable,
    pub dep: ProviderTable,
}

/// Checks a manifest's version and indexes its environment and deployment
/// providers by name.
pub fn index_manifest(
    version: u32,
    name: String,
    env_names: Vec<String>,
    dep_names: Vec<String>,
) -> (r: Result<PluginIndex, Error>)
    ensures
        r is Ok <==> version == PLUGIN_VERSION,
        r is Err ==> r->Err_0@ == ErrorSpec::InvalidVersion(PLUGIN_VERSION, version),
        r is Ok ==> r->Ok_0.name@ == name@,
        r is Ok ==> forall|q: Seq<char>| #[trigger] r->Ok_0.env.get_spec(q) == last_position(env_names@, q),
        r is Ok ==> forall|q: Seq<char>| #[trigger] r->Ok_0.dep.get_spec(q) == last_position(dep_names@, q),
{
    check_version(version)?;
    let env = index_names(env_names);
    let dep = index_names(dep_names);
    Ok(PluginIndex { name, env, dep })
}

} // verus!

verus! {

/// Parameters handed to a plugin and read back are the same pairs.
pub proof fn lemma_params_round_trip(params: Seq<(String, String)>, marshalled: Seq<Param>, back: Seq<(String, String)>)
    requires
        marshalled.len() == params.len(),
        forall|k: int|
            0 <= k < marshalled.len() ==> (#[trigger] marshalled[k]).key.data is Some && marshalled[k].value.data is Some
                && marshalled[k].key.data->0@ == encode_utf8(params[k].0@) && marshalled[k].value.data->0@
                == encode_utf8(params[k].1@),
        back.len() == marshalled.len(),
        forall|k: int|
            0 <= k < back.len() && valid_utf8(marshalled[k].key.data->0@) ==> (#[trigger] back[k]).0@
                == decode_utf8(marshalled[k].key.data->0@),
        forall|k: int|
            0 <= k < back.len() && valid_utf8(marshalled[k].value.data->0@) ==> (#[trigger] back[k]).1@
                == decode_utf8(marshalled[k].value.data->0@),
    ensures
        forall|k: int| 0 <= k < back.len() ==> (#[trigger] back[k]).0@ == params[k].0@ && back[k].1@ == params[k].1@,
{
    assert forall|k: int| 0 <= k < back.len() implies (#[trigger] back[k]).0@ == params[k].0@ && back[k].1@ == params[k].1@ by {
        let m = marshalled[k];
        vstd::utf8::encode_utf8_valid_utf8(params[k].0@);
        vstd::utf8::encode_utf8_valid_utf8(params[k].1@);
        vstd::utf8::encode_utf8_decode_utf8(params[k].0@);
        vstd::utf8::encode_utf8_decode_utf8(params[k].1@);
    }
}

} // verus!
