use uf2_tool::output::{is_tmp_file_name, tmp_file_name};

#[test]
fn tmp_file_name_layout() {
    assert_eq!(tmp_file_name("firmware.uf2", 4242), "uf2-tool.firmware.uf2.4242.tmp");
    assert_eq!(tmp_file_name("a.uf2", 0), "uf2-tool.a.uf2.0.tmp");
}

#[test]
fn tmp_file_names_are_recognized() {
    assert!(is_tmp_file_name("uf2-tool.a.uf2.17.tmp"));
    assert!(is_tmp_file_name("uf2-tool.tmp"));
    assert!(is_tmp_file_name(&tmp_file_name("x.uf2", 99)));
    assert!(!is_tmp_file_name("uf2-tool.a.uf2"));
    assert!(!is_tmp_file_name("a.uf2.tmp"));
    assert!(!is_tmp_file_name("uf2-tool"));
    assert!(!is_tmp_file_name(""));
    assert!(!is_tmp_file_name("Uf2-tool.x.tmp"));
}
