use xnip::text::atomic::bak_path;

#[test]
fn bak_path_replaces_the_extension() {
    assert_eq!(bak_path("a.txt"), "a.bak");
    assert_eq!(bak_path("dir/sub/a.txt"), "dir/sub/a.bak");
    assert_eq!(bak_path("noext"), "noext.bak");
    assert_eq!(bak_path(".hidden"), ".hidden.bak");
    assert_eq!(bak_path("a.tar.gz"), "a.tar.bak");
}
