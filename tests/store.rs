use nix_query_tree_viewer::nix_query_tree::exec_nix_store::{
    nix_store_res, ExecNixStoreRes, NixStoreErr, NixStoreRes,
};
use nix_query_tree_viewer::nix_query_tree::parsing::{nix_query_tree_parser, ErrorKind};
use nix_query_tree_viewer::nix_query_tree::{NixQueryDrv, NixQueryEntry, NixQueryTree, Recurse};
use std::str::FromStr;
use nix_query_tree_viewer::tree::Path;
use std::cmp::Ordering;

const GREP: &str = "/nix/store/az4kl5slhbkmmy4vj98z3hzxxkan7zza-gnugrep-3.3";

const LISTING: &str = "/nix/store/qy93dp4a3rqyn2mz63fbxjg228hffwyw-hello-2.10\n\
    +---/nix/store/pnd2kl27sag76h23wa5kl95a76n3k9i3-glibc-2.27\n\
    |   +---/nix/store/pnd2kl27sag76h23wa5kl95a76n3k9i3-glibc-2.27 [...]\n\
    +---/nix/store/qy93dp4a3rqyn2mz63fbxjg228hffwyw-hello-2.10 [...]\n\
    +---/nix/store/9ny6szla9dg61jv8q22qbnqsz37465n0-multiple-outputs.sh\n";

const DEEP_TAIL: &str = "    +---/nix/store/pnd2kl27sag76h23wa5kl95a76n3k9i3-glibc-2.27 [...]\n        \
    +---/nix/store/5wvmvcc3b7sisirx1vsqbqdis0sd1x5d-cc-wrapper.sh\n        \
    +---/nix/store/5jzbjvnrz85n454inlyxcpgap9i6k6la-pcre-8.43\n";

#[test]
fn drv_name_extraction() {
    let drv = NixQueryDrv::from(GREP);
    assert_eq!(drv.drv_name(), "gnugrep-3.3");
    assert_eq!(drv.hash_and_drv_name(), "az4kl5slhbkmmy4vj98z3hzxxkan7zza-gnugrep-3.3");
    assert_eq!(drv.short_hash_and_drv_name(), "az4kl5s..gnugrep-3.3");
    assert_eq!(drv.as_str(), GREP);
}

#[test]
fn entry_accessors_follow_the_path() {
    let entry = NixQueryEntry::new(GREP, Recurse::Yes);
    assert_eq!(entry.drv_name(), "gnugrep-3.3");
    assert_eq!(entry.hash_and_drv_name(), "az4kl5slhbkmmy4vj98z3hzxxkan7zza-gnugrep-3.3");
    assert_eq!(entry.short_hash_and_drv_name(), "az4kl5s..gnugrep-3.3");
}

#[test]
fn store_directory_is_taken_off_repeatedly() {
    let drv = NixQueryDrv::from("/nix/store//nix/store/abcdefgh-foo-bar");
    assert_eq!(drv.hash_and_drv_name(), "abcdefgh-foo-bar");
    let twice = NixQueryDrv::from("/nix/store//nix/store/abcdefgh-foo");
    assert_eq!(twice.drv_name(), "foo");
    let other = NixQueryDrv::from("/tmp/abcdefgh-foo-bar");
    assert_eq!(other.hash_and_drv_name(), "/tmp/abcdefgh-foo-bar");
    assert_eq!(other.drv_name(), "foo-bar");
}

#[test]
fn ordering_by_hash_and_by_name() {
    let a = NixQueryEntry::new("/nix/store/aaaa-zlib-1", Recurse::No);
    let b = NixQueryEntry::new("/nix/store/bbbb-acl-2", Recurse::Yes);
    assert_eq!(a.cmp_hash(&b), Ordering::Less);
    assert_eq!(b.cmp_hash(&a), Ordering::Greater);
    assert_eq!(a.cmp_hash(&a), Ordering::Equal);
    assert_eq!(a.cmp_drv_name(&b), Ordering::Greater);
    assert_eq!(b.cmp_drv_name(&a), Ordering::Less);
    let prefix = NixQueryDrv::from("/nix/store/aaaa-zlib");
    assert_eq!(prefix.cmp_hash(&a.0), Ordering::Less);
    assert_eq!(a.0.cmp_drv_name(&prefix), Ordering::Greater);
}

#[test]
fn path_map_finds_first_instance() {
    let raw = format!("{}{}", LISTING, DEEP_TAIL);
    let tree = nix_query_tree_parser(&raw).unwrap();
    let map = tree.path_map();
    let pcre_drv = NixQueryDrv::from("/nix/store/5jzbjvnrz85n454inlyxcpgap9i6k6la-pcre-8.43");
    let expected_path = Some(Path::from(vec![2, 0, 1]));
    assert_eq!(map.lookup_first(&pcre_drv), expected_path.as_ref());
    let glibc = NixQueryDrv::from("/nix/store/pnd2kl27sag76h23wa5kl95a76n3k9i3-glibc-2.27");
    assert_eq!(map.lookup_first(&glibc), Some(&Path::from(vec![0])));
    assert_eq!(
        map.0.lookup_all(&glibc),
        Some(&vec![Path::from(vec![0]), Path::from(vec![0, 0]), Path::from(vec![2, 0])])
    );
    assert_eq!(map.lookup_first(&NixQueryDrv::from("/nix/store/none")), None);
}

#[test]
fn store_res_bundles_text_tree_and_index() {
    let tree = nix_query_tree_parser(LISTING).unwrap();
    let res = NixStoreRes::new(LISTING, tree);
    assert_eq!(res.raw, LISTING);
    let collapsed = res.tree.lookup(Path::from(vec![0, 0])).unwrap().clone();
    assert_eq!(collapsed.1, Recurse::Yes);
    assert_eq!(res.lookup_first_query_entry(&collapsed), Some(&Path::from(vec![0])));
    let hello = res.tree.lookup(Path::from(vec![1])).unwrap().clone();
    assert_eq!(res.lookup_first_query_entry(&hello), Some(&Path::new()));
    let missing = NixQueryEntry::new("/nix/store/zzzz-missing", Recurse::No);
    assert_eq!(res.lookup_first_query_entry(&missing), None);
}

#[test]
fn command_output_is_parsed() {
    let res = nix_store_res(true, LISTING.as_bytes().to_vec(), vec![]).unwrap();
    assert_eq!(res.raw, LISTING);
    assert_eq!(res.tree, nix_query_tree_parser(LISTING).unwrap());
    let accented = "/nix/store/abcdefgh-caf\u{e9}-1\n";
    let res = nix_store_res(true, accented.as_bytes().to_vec(), vec![]).unwrap();
    assert_eq!(res.raw, accented);
    assert_eq!(res.tree.0.item.0.drv_name(), "caf\u{e9}-1");
}

#[test]
fn command_failures_are_reported() {
    let failed = nix_store_res(false, vec![], b"error: path is not valid".to_vec());
    assert_eq!(failed, Err(NixStoreErr::NixStoreErr("error: path is not valid".to_string())));
    let bad_utf8 = nix_store_res(true, vec![0xff, 0xfe], vec![]);
    assert!(matches!(bad_utf8, Err(NixStoreErr::Utf8Err(_))));
    let bad_stderr = nix_store_res(false, vec![], vec![0xc3]);
    assert!(matches!(bad_stderr, Err(NixStoreErr::Utf8Err(_))));
    let unparsable = nix_store_res(true, b"x\n  +---y\n".to_vec(), vec![]);
    match unparsable {
        Err(NixStoreErr::ParseErr(e)) => {
            assert_eq!(e.kind, ErrorKind::MalformedIndent);
            assert_eq!(e.rest, "  +---y\n");
        }
        other => panic!("unexpected result {:?}", other),
    }
}

#[test]
fn exec_result_keeps_the_store_path() {
    let r = ExecNixStoreRes::new(GREP, Err(NixStoreErr::CommandErr("not found".to_string())));
    assert_eq!(r.nix_store_path, GREP);
    assert_eq!(r.res, Err(NixStoreErr::CommandErr("not found".to_string())));
}

#[test]
fn from_str_parses_entries_and_trees() {
    let entry = NixQueryEntry::from_str(&format!("{} [...]", GREP));
    assert_eq!(entry, Ok(NixQueryEntry::new(GREP, Recurse::Yes)));
    let tree = NixQueryTree::from_str(LISTING);
    assert_eq!(tree, nix_query_tree_parser(LISTING));
    assert!(tree.is_ok());
    assert_eq!(NixQueryDrv::from_str(GREP), Ok(NixQueryDrv::from(GREP)));
}

#[test]
fn build_parses_and_indexes() {
    let res = NixStoreRes::build(LISTING).unwrap();
    assert_eq!(res.raw, LISTING);
    let glibc = NixQueryDrv::from("/nix/store/pnd2kl27sag76h23wa5kl95a76n3k9i3-glibc-2.27");
    assert_eq!(res.map.lookup_first(&glibc), Some(&Path::from(vec![0])));
    let err = NixStoreRes::build("root\n+---a\n\n").unwrap_err();
    assert_eq!(err.kind, ErrorKind::TrailingInput);
    assert_eq!(err.rest, "\n");
}

#[test]
fn well_formedness_is_testable() {
    assert!(NixQueryDrv::from(GREP).has_drv_name());
    assert!(!NixQueryDrv::from("/nix/store/abcdefgh").has_drv_name());
    assert!(!NixQueryDrv::from("").has_drv_name());
    assert!(NixQueryDrv::from("x-").has_drv_name());
    assert_eq!(NixQueryDrv::from("x-").drv_name(), "");
}
