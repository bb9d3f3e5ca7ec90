use text_searcher::{FinderService, Phrase};

fn sorted_files(service: &FinderService) -> Vec<String> {
    let mut files: Vec<String> = service.state().files().to_vec();
    files.sort();
    files
}

#[test]
fn finder_service_test_add_file_single() {
    let mut service = FinderService::new("persist-file.json");
    service.track_file("test_files/file.txt".to_string());
    let files = sorted_files(&service);
    assert_eq!(["test_files/file.txt".to_string()].to_vec(), files);
}

#[test]
fn finder_service_test_add_file_dir() {
    let mut service = FinderService::new("persist-file.json");
    service.track_file("test_files/dir/sub_file_1.txt".to_string());
    service.track_file("test_files/dir/sub_file_2.txt".to_string());
    let files = sorted_files(&service);
    assert_eq!(
        ["test_files/dir/sub_file_1.txt".to_string(), "test_files/dir/sub_file_2.txt".to_string()].to_vec(),
        files
    );
}

#[test]
fn finder_service_test_remove_file_single() {
    let mut service = FinderService::new("persist-file.json");
    service.track_file("test_files/dir/sub_file_1.txt".to_string());
    service.track_file("test_files/dir/sub_file_2.txt".to_string());
    service.remove_files("test_files/dir/sub_file_1.txt");
    let files = sorted_files(&service);
    assert_eq!(["test_files/dir/sub_file_2.txt".to_string()].to_vec(), files);
}

#[test]
fn finder_service_test_remove_file_multi() {
    let mut service = FinderService::new("persist-file.json");
    service.track_file("test_files/file.txt".to_string());
    service.track_file("test_files/dir/sub_file_1.txt".to_string());
    service.track_file("test_files/dir/sub_file_2.txt".to_string());
    service.remove_files("test_files/dir");
    let files = sorted_files(&service);
    assert_eq!(["test_files/file.txt".to_string()].to_vec(), files);
}

#[test]
fn persistence_test_add_file_single() {
    let mut service = FinderService::new("persist-file.json");
    service.track_file("test_files/file.txt".to_string());
    let state = service.state();
    assert_eq!(&["test_files/file.txt".to_string()], state.files());
}

#[test]
fn persistence_test_add_file_dir() {
    let mut service = FinderService::new("persist-file.json");
    service.track_file("test_files/dir/sub_file_1.txt".to_string());
    service.track_file("test_files/dir/sub_file_2.txt".to_string());
    let state = service.state();
    assert_eq!(
        &["test_files/dir/sub_file_1.txt".to_string(), "test_files/dir/sub_file_2.txt".to_string()],
        state.files()
    );
}

#[test]
fn persistence_test_remove_file_single() {
    let mut service = FinderService::new("persist-file.json");
    service.track_file("test_files/dir/sub_file_1.txt".to_string());
    service.track_file("test_files/dir/sub_file_2.txt".to_string());
    service.remove_files("test_files/dir/sub_file_1.txt");
    let state = service.state();
    assert_eq!(&["test_files/dir/sub_file_2.txt".to_string()], state.files());
}

#[test]
fn persistence_test_remove_file_multi() {
    let mut service = FinderService::new("persist-file.json");
    service.track_file("test_files/file.txt".to_string());
    service.track_file("test_files/dir/sub_file_1.txt".to_string());
    service.track_file("test_files/dir/sub_file_2.txt".to_string());
    service.remove_files("test_files/dir");
    let state = service.state();
    assert_eq!(&["test_files/file.txt".to_string()], state.files());
}

#[test]
fn tracking_a_file_twice_keeps_one_entry() {
    let mut service = FinderService::new("persist-file.json");
    service.track_file("a/b.txt".to_string());
    service.track_file("a/b.txt".to_string());
    assert_eq!(&["a/b.txt".to_string()], service.state().files());
}

#[test]
fn remove_files_matches_whole_components_only() {
    let mut service = FinderService::new("persist-file.json");
    service.track_file("test_files/dir/x.txt".to_string());
    service.track_file("test_files/directory/y.txt".to_string());
    service.remove_files("test_files/dir");
    assert_eq!(&["test_files/directory/y.txt".to_string()], service.state().files());
    service.remove_files("test_files/di");
    assert_eq!(&["test_files/directory/y.txt".to_string()], service.state().files());
}

#[test]
fn phrases_are_added_once_and_removed() {
    let mut service = FinderService::new("persist.json");
    service.add_phrase(Phrase::parse("famine where"));
    service.add_phrase(Phrase::from_strs(&["famine", "where"]));
    service.add_phrase(Phrase::parse("  deep \t sunken\n"));
    assert_eq!(2, service.state().phrases().len());
    assert!(service.remove_phrase(&Phrase::from_strs(&["famine", "where"])));
    assert!(!service.remove_phrase(&Phrase::from_strs(&["famine", "where"])));
    let names: Vec<String> = service.state().phrases().iter().map(|p| p.to_string()).collect();
    assert_eq!(vec!["deep sunken".to_string()], names);
    assert_eq!("persist.json", service.persist_file().as_str());
}
