use media_client::message::ServerType;
use media_client::servers::{CompleteFile, KnownServers, MediaServer, TextFile, TextServer};

#[test]
fn media_server_keeps_content_by_identifier() {
    let mut server = MediaServer::new();
    assert_eq!(server.get_media(&"m".to_string()), None);
    server.add_media_id("m".to_string());
    assert_eq!(server.get_media(&"m".to_string()), None);
    server.add_media("m".to_string(), "content".to_string());
    assert_eq!(server.get_media(&"m".to_string()), Some(&"content".to_string()));
    server.add_media("n".to_string(), "other".to_string());
    assert_eq!(server.get_media(&"m".to_string()), Some(&"content".to_string()));
    assert_eq!(server.get_media(&"n".to_string()), Some(&"other".to_string()));
    // naming the identifier again drops the content
    server.add_media_id("m".to_string());
    assert_eq!(server.get_media(&"m".to_string()), None);
    assert_eq!(server.get_media(&"n".to_string()), Some(&"other".to_string()));
}

#[test]
fn complete_file_counts_its_media() {
    let mut file = CompleteFile::new_building("a".to_string(), "text".to_string(), 2);
    assert_eq!(
        file,
        CompleteFile {
            file_id: "a".to_string(),
            text_content: "text".to_string(),
            media_number: 2,
            media_index: 0,
            media_files: Vec::new(),
        }
    );
    assert!(!file.add_media("one".to_string()));
    assert_eq!(file.media_index, 1);
    assert!(file.add_media("two".to_string()));
    assert_eq!(file.media_index, 2);
    assert_eq!(file.media_files, vec!["one".to_string(), "two".to_string()]);
    let plain = CompleteFile::new_without_media("b".to_string(), "t".to_string());
    assert_eq!(plain.media_number, 0);
    assert_eq!(plain.media_index, 0);
    assert_eq!(plain.file_id, "b");
}

#[test]
fn text_file_getters() {
    let file = TextFile::new("content".to_string(), 7);
    assert_eq!(file.get_content(), "content");
    assert_eq!(file.get_media_number(), 0);
    assert_eq!(file.get_media_ref(), &Vec::new());
    let file =
        TextFile::with_media_ref("c".to_string(), 1, vec![(8, "m1".to_string()), (9, "m2".to_string())]);
    assert_eq!(file.get_media_number(), 2);
    assert_eq!(file.get_media_ref(), &vec![(8, "m1".to_string()), (9, "m2".to_string())]);
}

#[test]
fn text_server_keeps_files_in_order() {
    let mut server = TextServer::new();
    server.bulk_add_file_id(vec!["a".to_string(), "b".to_string(), "a".to_string()]);
    assert_eq!(server.get_files().len(), 2);
    assert_eq!(server.get_files()[0].0, "a");
    assert_eq!(server.get_files()[1].0, "b");
    assert!(server.get_file(&"a".to_string()).is_none());
    assert_eq!(server.add_file("b".to_string(), "text".to_string(), 4), Vec::new());
    assert_eq!(server.get_file(&"b".to_string()).map(|f| f.get_content()), Some("text".to_string()));
    assert_eq!(server.get_files()[1].0, "b");
    // naming the file again drops it
    server.add_file_id("b".to_string());
    assert!(server.get_file(&"b".to_string()).is_none());
    assert!(server.get_file(&"c".to_string()).is_none());
    server.put_file("c".to_string(), TextFile::with_media_ref("x".to_string(), 1, vec![(8, "m".to_string())]));
    assert_eq!(server.get_file(&"c".to_string()).map(|f| f.get_media_number()), Some(1));
}

#[test]
fn known_servers_find_the_first_complete_file() {
    let mut servers = KnownServers::new();
    servers.add_server_id(7);
    // the kind of server 7 is not known yet: nothing is stored
    assert_eq!(servers.add_text_file(1, "t".to_string(), "a".to_string(), 7).unwrap_err(), Vec::new());
    assert_eq!(servers.add_media_file("m".to_string(), "c".to_string(), 7), None);
    servers.add_server_type(7, ServerType::Text);
    servers.add_server_type(8, ServerType::Media);
    servers.add_server_type(9, ServerType::Chat);
    servers.add_files_list(vec!["a".to_string()], 7);
    servers.add_files_list(vec!["a".to_string()], 8);
    assert_eq!(
        servers.add_text_file(4, "text".to_string(), "a".to_string(), 7),
        Ok(CompleteFile::new_without_media("a".to_string(), "text".to_string()))
    );
    // a file without references never counts as complete later on
    assert_eq!(servers.check_for_complete_file(), None);
    assert_eq!(servers.get_media_file(8, &"m".to_string()), None);
    assert_eq!(servers.add_media_file("m".to_string(), "content".to_string(), 8), None);
    assert_eq!(servers.get_media_file(8, &"m".to_string()), Some("content".to_string()));
    assert_eq!(servers.get_media_file(7, &"m".to_string()), None);
    assert_eq!(servers.add_media_file("m".to_string(), "content".to_string(), 9), None);
}

#[test]
fn a_file_is_complete_when_all_its_media_are_at_hand() {
    let mut servers = KnownServers::new();
    servers.add_server_type(8, ServerType::Media);
    servers.add_server_type(7, ServerType::Text);
    servers.add_server_type(9, ServerType::Media);
    let refs = vec![(8, "m1".to_string()), (9, "m2".to_string())];
    assert!(!servers.put_text_file("a".to_string(), TextFile::new("x".to_string(), 1), 8));
    assert!(servers.put_text_file(
        "a".to_string(),
        TextFile::with_media_ref("text".to_string(), 4, refs),
        7
    ));
    assert_eq!(servers.check_for_complete_file(), None);
    assert_eq!(servers.add_media_file("m2".to_string(), "two".to_string(), 9), None);
    // the media is asked of the server that the reference names
    assert_eq!(servers.add_media_file("m1".to_string(), "wrong".to_string(), 9), None);
    assert_eq!(
        servers.add_media_file("m1".to_string(), "one".to_string(), 8),
        Some(CompleteFile {
            file_id: "a".to_string(),
            text_content: "text".to_string(),
            media_number: 2,
            media_index: 2,
            media_files: vec!["one".to_string(), "two".to_string()],
        })
    );
    // nothing is taken out of the store: the file is still complete
    assert!(servers.check_for_complete_file().is_some());
}

#[test]
fn the_text_server_with_the_smaller_identifier_comes_first() {
    let mut servers = KnownServers::new();
    servers.add_server_type(9, ServerType::Text);
    servers.add_server_type(7, ServerType::Text);
    servers.add_server_type(8, ServerType::Media);
    let refs = || vec![(8, "m".to_string())];
    assert!(servers.put_text_file(
        "late".to_string(),
        TextFile::with_media_ref("nine".to_string(), 4, refs()),
        9
    ));
    assert!(servers.put_text_file(
        "early".to_string(),
        TextFile::with_media_ref("seven".to_string(), 5, refs()),
        7
    ));
    match servers.add_media_file("m".to_string(), "content".to_string(), 8) {
        Some(file) => assert_eq!(file.file_id, "early"),
        None => panic!("a file is complete"),
    }
    // making a server known again drops what was known of it
    servers.add_server_id(7);
    match servers.check_for_complete_file() {
        Some(file) => assert_eq!(file.file_id, "late"),
        None => panic!("a file is complete"),
    }
    assert!(servers.get_media_server(&8).is_some());
    assert!(servers.get_media_server(&7).is_none());
}
