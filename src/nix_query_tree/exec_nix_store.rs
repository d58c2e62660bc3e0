//! The result of one `nix-store --query --tree` run: the raw listing, its tree and the index
//! of where each store path occurs. Running the command is left to the caller, which hands
//! over what the command printed.

use super::parsing::{nix_query_tree_parser, tree_parse, ParseError};
use super::{drv_keys, NixQueryEntry, NixQueryPathMap, NixQueryTree};
use crate::tree::{
    has_key, index_all, path_index_keeps_preorder, paths_with_key, Path,
};
use vstd::prelude::*;
use vstd::utf8::{decode_utf8, valid_utf8};

verus! {

/// Why no tree could be shown.
#[derive(Clone, Debug, PartialEq, Eq)]
pub enum NixStoreErr {
    /// The command could not be run.
    CommandErr(String),
    /// The command printed something that is not UTF-8.
    Utf8Err(String),
    /// The command failed; this is what it printed on its error stream.
    NixStoreErr(String),
    /// The listing does not follow the grammar.
    ParseErr(ParseError),
}

/// A parsed listing, the text it was parsed from, and the index of its store paths.
#[derive(Debug, PartialEq, Eq)]
pub struct NixStoreRes {
    pub raw: String,
    pub tree: NixQueryTree,
    pub map: NixQueryPathMap,
}

impl NixStoreRes {
    /// The index is the one that `tree` gives.
    pub open spec fn wf(&self) -> bool {
        &&& self.map.0.wf()
        &&& self.map.0@ == index_all(Seq::empty(), drv_keys(self.tree.0.nodes()))
    }

    pub fn new(raw: &str, tree: NixQueryTree) -> (r: Self)
        ensures
            r.wf(),
            r.raw@ == raw@,
            r.tree == tree,
    {
        let map: NixQueryPathMap = tree.path_map();
        NixStoreRes { raw: raw.to_owned(), tree, map }
    }

    /// Parses `raw` as a whole listing and bundles it with its tree and index.
    pub fn build(raw: &str) -> (r: Result<NixStoreRes, ParseError>)
        ensures
            tree_parse(raw@) matches Ok(t) ==> (r matches Ok(res) && res.wf() && res.raw@ == raw@
                && res.tree@ == t),
            tree_parse(raw@) matches Err((k, p)) ==> (r matches Err(e) && e.kind == k && e.rest@
                == raw@.skip(p)),
    {
        match nix_query_tree_parser(raw) {
            Ok(tree) => Ok(NixStoreRes::new(raw, tree)),
            Err(e) => Err(e),
        }
    }

    /// The path of the first node, in pre-order, whose store path is that of
    /// `nix_query_entry`, whatever the markers of the two.
    pub fn lookup_first_query_entry(&self, nix_query_entry: &NixQueryEntry) -> (r: Option<&Path>)
        requires
            self.wf(),
        ensures
            r is Some <==> paths_with_key(drv_keys(self.tree.0.nodes()), nix_query_entry.0@).len()
                > 0,
            r is Some ==> r->Some_0@ == paths_with_key(
                drv_keys(self.tree.0.nodes()),
                nix_query_entry.0@,
            )[0],
    {
        let k = Ghost(nix_query_entry.0@);
        proof {
            path_index_keeps_preorder(self.tree.0, |e: NixQueryEntry| e.0@, k@);
            let m = self.map.0@;
            if has_key(m, k@) {
                assert(m[crate::tree::key_slot(m, k@)].1.len() > 0);
            }
        }
        self.map.lookup_first(&nix_query_entry.0)
    }
}

/// What one run of the command gave, for the store path it was run on.
#[derive(Debug, PartialEq, Eq)]
pub struct ExecNixStoreRes {
    pub nix_store_path: String,
    pub res: Result<NixStoreRes, NixStoreErr>,
}

impl ExecNixStoreRes {
    pub fn new(nix_store_path: &str, res: Result<NixStoreRes, NixStoreErr>) -> (r: Self)
        ensures
            r.nix_store_path@ == nix_store_path@,
            r.res == res,
    {
        ExecNixStoreRes { nix_store_path: nix_store_path.to_owned(), res }
    }
}

/// Relies on `String::from_utf8`: it succeeds exactly on valid UTF-8, and the string then
/// holds the characters that the bytes encode. On failure, the error's message.
#[verifier::external_body]
fn string_from_utf8(bytes: Vec<u8>) -> (r: Result<String, String>)
    ensures
        r is Ok <==> valid_utf8(bytes@),
        r matches Ok(s) ==> s@ == decode_utf8(bytes@),
{
    match String::from_utf8(bytes) {
        Ok(s) => Ok(s),
        Err(e) => Err(e.to_string()),
    }
}

/// The text that `bytes` encode, or `Utf8Err` if they are not UTF-8.
fn from_utf8(bytes: Vec<u8>) -> (r: Result<String, NixStoreErr>)
    ensures
        r is Ok <==> valid_utf8(bytes@),
        r matches Ok(s) ==> s@ == decode_utf8(bytes@),
        r matches Err(e) ==> e is Utf8Err,
{
    match string_from_utf8(bytes) {
        Ok(s) => Ok(s),
        Err(msg) => Err(NixStoreErr::Utf8Err(msg)),
    }
}

/// The outcome of a run of `nix-store --query --tree`, from whether it succeeded and what it
/// printed on its output and error streams: on success the parsed listing, else the error
/// text.
pub fn nix_store_res(success: bool, stdout: Vec<u8>, stderr: Vec<u8>) -> (r: Result<
    NixStoreRes,
    NixStoreErr,
>)
    ensures
        success && !valid_utf8(stdout@) ==> (r matches Err(e) && e is Utf8Err),
        success && valid_utf8(stdout@) ==> match tree_parse(decode_utf8(stdout@)) {
            Ok(t) => r matches Ok(res) && res.wf() && res.raw@ == decode_utf8(stdout@) && res.tree@
                == t,
            Err((k, p)) => r matches Err(NixStoreErr::ParseErr(e)) && e.kind == k && e.rest@
                == decode_utf8(stdout@).skip(p),
        },
        !success && !valid_utf8(stderr@) ==> (r matches Err(e) && e is Utf8Err),
        !success && valid_utf8(stderr@) ==> (r matches Err(NixStoreErr::NixStoreErr(msg)) && msg@
            == decode_utf8(stderr@)),
{
    if success {
        let out = from_utf8(stdout)?;
        match NixStoreRes::build(out.as_str()) {
            Ok(res) => Ok(res),
            Err(e) => Err(NixStoreErr::ParseErr(e)),
        }
    } else {
        let err = from_utf8(stderr)?;
        Err(NixStoreErr::NixStoreErr(err))
    }
}

} // verus!
