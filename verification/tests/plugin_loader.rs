use std::path::{Path, PathBuf};

use image_processor::plugin_loader::{library_filename, library_path, marshal_params, Os};

#[test]
fn library_path_joins_dir_and_filename() {
    let path = library_path("invert", Path::new("target/debug"));
    let expected = PathBuf::from("target/debug").join(library_filename("invert", Os::current()));
    assert_eq!(path, expected);
}

#[test]
fn library_filename_for_linux() {
    assert_eq!(library_filename("invert", Os::Linux), "libinvert.so");
    assert_eq!(library_filename("blur", Os::Linux), "libblur.so");
}

#[test]
fn library_filename_for_windows() {
    assert_eq!(library_filename("invert", Os::Windows), "invert.dll");
    assert_eq!(library_filename("mirror", Os::Windows), "mirror.dll");
}

#[test]
fn library_filename_for_macos() {
    assert_eq!(library_filename("invert", Os::MacOs), "libinvert.dylib");
    assert_eq!(library_filename("blur", Os::MacOs), "libblur.dylib");
}

#[test]
fn library_filename_of_empty_name() {
    assert_eq!(library_filename("", Os::Linux), "lib.so");
    assert_eq!(library_filename("", Os::Windows), ".dll");
    assert_eq!(library_filename("", Os::MacOs), "lib.dylib");
}

#[test]
fn os_is_told_by_its_file_name() {
    assert_eq!(Os::from_file_name(".dll"), Os::Windows);
    assert_eq!(Os::from_file_name("lib.dylib"), Os::MacOs);
    assert_eq!(Os::from_file_name("lib.so"), Os::Linux);
    assert_eq!(Os::from_file_name(""), Os::Linux);
    assert_eq!(Os::from_file_name("lib.DLL"), Os::Linux);
}

#[test]
fn current_os_names_files_as_the_loader_does() {
    let ours = library_filename("blur", Os::current());
    let theirs = libloading::library_filename("blur");
    assert_eq!(Some(ours.as_str()), theirs.to_str());
}

#[test]
fn library_path_ends_in_the_file_name() {
    let path = library_path("blur", Path::new("plugins"));
    let file_name = library_filename("blur", Os::current());
    assert_eq!(path.file_name().and_then(|name| name.to_str()), Some(file_name.as_str()));
    assert_eq!(path.parent(), Some(Path::new("plugins")));
}

#[test]
fn marshal_params_passes_text_through() {
    assert_eq!(marshal_params(r#"{"radius": 2}"#), br#"{"radius": 2}"#.to_vec());
    assert_eq!(marshal_params("ü"), vec![0xc3, 0xbc]);
    assert_eq!(marshal_params(""), Vec::<u8>::new());
}

#[test]
fn marshal_params_drops_text_with_a_zero_byte() {
    assert_eq!(marshal_params("{}\0"), Vec::<u8>::new());
    assert_eq!(marshal_params("\0{}"), Vec::<u8>::new());
    assert_eq!(marshal_params("{\"a\0\": 1}"), Vec::<u8>::new());
}
