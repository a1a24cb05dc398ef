// The connection settings of the socket-delegating pre-tokenizers.

use wordseg::external::External;
use wordseg::isolate_lemmas::IsolateLemmas;

#[test]
fn test_external_new() {
    let ext = External::new("/tmp/seg.sock", " ", '|');
    assert_eq!(ext.path_to_socket, "/tmp/seg.sock");
    assert_eq!(ext.ignored_prefix, " ");
    assert_eq!(ext.split_delimiter, '|');
}

#[test]
fn test_external_default() {
    let ext = External::default();
    assert_eq!(ext.path_to_socket, "");
    assert_eq!(ext.ignored_prefix, "");
    assert_eq!(ext.split_delimiter, '\0');
}

#[test]
fn test_isolate_lemmas_default() {
    let il = IsolateLemmas::default();
    assert_eq!(il.path_to_socket, "");
    assert_eq!(il.with_prefix, "");
    assert_eq!(il.split_delimiter, '\0');
}
