use media_client::file_assembler::{AddedFileReturn, FileAssembler};
use media_client::markup::{
    collect_document_refs, collect_refs, document_keys, is_in_text_order, search_ref, MarkupNode,
    MarkupRoot,
};
use media_client::media::{decoded_media, keep_decoded};

fn keys(ids: &[&str]) -> Vec<(Option<u8>, String)> {
    ids.iter().map(|id| (None, id.to_string())).collect()
}

#[test]
fn references_are_found_in_document_order() {
    assert_eq!(search_ref("<img src='m1'><img src='m2'>"), Some(keys(&["m1", "m2"])));
    assert_eq!(
        search_ref("<div><p>text</p><img src=\"a.jpg\"><span><img src=\"b.jpg\"/></span></div><img src=\"c.jpg\">"),
        Some(keys(&["a.jpg", "b.jpg", "c.jpg"]))
    );
    assert_eq!(
        search_ref("<html><body><h1>t</h1><img src=\"x\"></body></html>"),
        Some(keys(&["x"]))
    );
}

#[test]
fn elements_without_a_source_are_passed_over() {
    assert_eq!(search_ref("<img alt='no source'><img src='m2'>"), Some(keys(&["m2"])));
    assert_eq!(search_ref("<img src><img src='m3'>"), Some(keys(&["m3"])));
    assert_eq!(search_ref("<a src='not an image'></a>"), Some(keys(&[])));
    assert_eq!(search_ref("<p>no media here</p>"), Some(keys(&[])));
    assert_eq!(search_ref(""), Some(keys(&[])));
}

#[test]
fn text_that_does_not_parse_has_no_references() {
    assert_eq!(search_ref("<head></head><body></body>"), None);
}

#[test]
fn references_are_collected_from_nodes() {
    let nodes = vec![
        MarkupNode::Text,
        MarkupNode::Element { name: "img".to_string(), value: Some(Some("a".to_string())), line: 1, column: 1 },
        MarkupNode::Element { name: "img".to_string(), value: Some(None), line: 1, column: 1 },
        MarkupNode::Element { name: "img".to_string(), value: None, line: 1, column: 1 },
        MarkupNode::Comment,
        MarkupNode::Element { name: "video".to_string(), value: Some(Some("b".to_string())), line: 1, column: 1 },
        MarkupNode::Element { name: "img".to_string(), value: Some(Some("c".to_string())), line: 1, column: 1 },
    ];
    assert_eq!(collect_refs(&nodes, "img"), vec!["a".to_string(), "c".to_string()]);
    assert_eq!(collect_refs(&nodes, "video"), vec!["b".to_string()]);
    assert_eq!(collect_refs(&nodes, "audio"), Vec::<String>::new());
}

#[test]
fn a_text_without_references_is_not_stored() {
    let mut files = FileAssembler::new();
    assert_eq!(files.add_textfile(9, "plain", "<p>hello</p>".to_string(), 12), None);
    assert_eq!(files.add_media_file("m1", "b1".to_string()), None);
}

#[test]
fn a_bundle_leaves_when_its_last_media_arrives() {
    let mut files = FileAssembler::new();
    let content = "<img src='m1'><img src='m2'>".to_string();
    assert_eq!(files.add_textfile(9, "a", content.clone(), 28), Some(keys(&["m1", "m2"])));
    assert_eq!(files.add_media_file("m1", "b1".to_string()), None);
    assert_eq!(files.add_media_file("other", "x".to_string()), None);
    assert_eq!(
        files.add_media_file("m2", "b2".to_string()),
        Some(AddedFileReturn::CompleteFile {
            source_id: 9,
            file_id: "a".to_string(),
            content,
            media_content: vec![
                ("m1".to_string(), "b1".to_string()),
                ("m2".to_string(), "b2".to_string())
            ],
        })
    );
    // the bundle is gone, and so are its media
    assert_eq!(files.add_media_file("m2", "b2".to_string()), None);
    assert_eq!(files.add_textfile(9, "a", "<img src='m1'>".to_string(), 14), Some(keys(&["m1"])));
    assert_eq!(files.add_media_file("other", "x".to_string()), None);
}

#[test]
fn a_media_named_twice_comes_once() {
    let mut files = FileAssembler::new();
    let content = "<img src='m'><img src='m'><img src='n'>".to_string();
    assert_eq!(files.add_textfile(2, "t", content.clone(), 0), Some(keys(&["m", "m", "n"])));
    assert_eq!(files.add_media_file("n", "bn".to_string()), None);
    assert_eq!(
        files.add_media_file("m", "bm".to_string()),
        Some(AddedFileReturn::CompleteFile {
            source_id: 2,
            file_id: "t".to_string(),
            content,
            media_content: vec![
                ("m".to_string(), "bm".to_string()),
                ("n".to_string(), "bn".to_string())
            ],
        })
    );
}

#[test]
fn the_first_text_that_is_complete_leaves_first() {
    let mut files = FileAssembler::new();
    files.add_textfile(1, "first", "<img src='a'><img src='b'>".to_string(), 0);
    files.add_textfile(1, "second", "<img src='a'>".to_string(), 0);
    files.add_textfile(2, "third", "<img src='a'>".to_string(), 0);
    // "a" completes the second and the third text; the second came first
    match files.add_media_file("a", "1".to_string()) {
        Some(AddedFileReturn::CompleteFile { source_id, file_id, media_content, .. }) => {
            assert_eq!((source_id, file_id.as_str()), (1, "second"));
            assert_eq!(media_content, vec![("a".to_string(), "1".to_string())]);
        }
        other => panic!("unexpected {:?}", other),
    }
    // the media was used up: the third text waits for it again
    assert_eq!(files.add_media_file("b", "2".to_string()), None);
    match files.add_media_file("a", "3".to_string()) {
        Some(AddedFileReturn::CompleteFile { source_id, file_id, media_content, .. }) => {
            assert_eq!((source_id, file_id.as_str()), (1, "first"));
            assert_eq!(
                media_content,
                vec![("a".to_string(), "3".to_string()), ("b".to_string(), "2".to_string())]
            );
        }
        other => panic!("unexpected {:?}", other),
    }
    match files.add_media_file("a", "4".to_string()) {
        Some(AddedFileReturn::CompleteFile { source_id, file_id, .. }) => {
            assert_eq!((source_id, file_id.as_str()), (2, "third"));
        }
        other => panic!("unexpected {:?}", other),
    }
}

#[test]
fn a_media_sent_again_overwrites() {
    let mut files = FileAssembler::new();
    files.add_media_file("m", "old".to_string());
    files.add_media_file("m", "new".to_string());
    files.add_textfile(1, "t", "<img src='m'>".to_string(), 0);
    match files.add_media_file("unrelated", "x".to_string()) {
        Some(AddedFileReturn::CompleteFile { media_content, .. }) => {
            assert_eq!(media_content, vec![("m".to_string(), "new".to_string())]);
        }
        other => panic!("unexpected {:?}", other),
    }
}

#[test]
fn a_text_sent_again_replaces_the_waiting_one() {
    let mut files = FileAssembler::new();
    files.add_textfile(1, "t", "<img src='a'>".to_string(), 0);
    files.add_textfile(1, "t", "<img src='b'>".to_string(), 0);
    assert_eq!(files.add_media_file("a", "1".to_string()), None);
    match files.add_media_file("b", "2".to_string()) {
        Some(AddedFileReturn::CompleteFile { content, .. }) => {
            assert_eq!(content, "<img src='b'>");
        }
        other => panic!("unexpected {:?}", other),
    }
}

#[test]
fn media_are_decoded_from_base64() {
    let one = |content: &str| decoded_media(&vec![("m".to_string(), content.to_string())]);
    assert_eq!(one("AAECAw=="), vec![("m".to_string(), vec![0, 1, 2, 3])]);
    assert_eq!(one(""), vec![("m".to_string(), Vec::new())]);
    assert_eq!(one("not base64!"), Vec::new());
    let media = vec![
        ("a".to_string(), "aGVsbG8=".to_string()),
        ("broken".to_string(), "%%%".to_string()),
        ("b".to_string(), "/w==".to_string()),
    ];
    assert_eq!(
        decoded_media(&media),
        vec![("a".to_string(), b"hello".to_vec()), ("b".to_string(), vec![255])]
    );
    let mut list = Vec::new();
    keep_decoded(&mut list, "x".to_string(), None);
    keep_decoded(&mut list, "y".to_string(), Some(vec![1]));
    assert_eq!(list, vec![("y".to_string(), vec![1])]);
}

#[test]
fn every_root_counts_and_comes_before_what_is_below_it() {
    let img = |value: &str| MarkupNode::Element {
        name: "img".to_string(),
        value: Some(Some(value.to_string())),
        line: 1,
        column: 1,
    };
    let roots = vec![
        MarkupRoot { node: img("first root"), below: vec![MarkupNode::Text, img("below first")] },
        MarkupRoot { node: MarkupNode::Comment, below: Vec::new() },
        MarkupRoot {
            node: MarkupNode::Element { name: "div".to_string(), value: None, line: 1, column: 1 },
            below: vec![img("below third"), img("last")],
        },
        MarkupRoot { node: img("fourth root"), below: Vec::new() },
    ];
    assert_eq!(
        collect_document_refs(&roots, "img"),
        vec![
            "first root".to_string(),
            "below first".to_string(),
            "below third".to_string(),
            "last".to_string(),
            "fourth root".to_string()
        ]
    );
    assert_eq!(collect_document_refs(&Vec::new(), "img"), Vec::<String>::new());
    // an element that is both a root and a parent: itself first, then its children
    assert_eq!(
        search_ref("<img src='r'><div><img src='c1'><p><img src='c2'></p></div><img src='z'>"),
        Some(vec![
            (None, "r".to_string()),
            (None, "c1".to_string()),
            (None, "c2".to_string()),
            (None, "z".to_string())
        ])
    );
}

#[test]
fn the_keys_of_a_document_are_those_of_its_images() {
    let img = |value: &str| MarkupNode::Element {
        name: "img".to_string(),
        value: Some(Some(value.to_string())),
        line: 1,
        column: 1,
    };
    let roots = vec![
        MarkupRoot { node: MarkupNode::Text, below: vec![img("a")] },
        MarkupRoot { node: img("b"), below: Vec::new() },
    ];
    assert_eq!(document_keys(&roots), keys(&["a", "b"]));
    assert_eq!(document_keys(&Vec::new()), keys(&[]));
}

#[test]
fn a_text_file_is_taken_in_by_what_the_search_found() {
    let mut files = FileAssembler::new();
    // no answer and an empty answer both leave the store as it is
    assert_eq!(files.add_textfile_found(9, "a", "text".to_string(), 4, None), None);
    assert_eq!(files.add_textfile_found(9, "a", "text".to_string(), 4, Some(Vec::new())), None);
    assert_eq!(files.add_media_file("m", "b".to_string()), None);
    // the file waits for the media that the keys name, whatever its text says
    assert_eq!(
        files.add_textfile_found(9, "a", "<img src='x'>".to_string(), 13, Some(keys(&["m", "n"]))),
        Some(keys(&["m", "n"]))
    );
    assert_eq!(
        files.add_media_file("n", "c".to_string()),
        Some(AddedFileReturn::CompleteFile {
            source_id: 9,
            file_id: "a".to_string(),
            content: "<img src='x'>".to_string(),
            media_content: vec![
                ("m".to_string(), "b".to_string()),
                ("n".to_string(), "c".to_string())
            ],
        })
    );
}

fn element_at(line: usize, column: usize) -> MarkupNode {
    MarkupNode::Element { name: "img".to_string(), value: None, line, column }
}

#[test]
fn elements_must_come_as_they_start_in_the_text() {
    let ordered = vec![
        MarkupRoot {
            node: element_at(1, 1),
            below: vec![MarkupNode::Text, element_at(1, 6), element_at(2, 1)],
        },
        MarkupRoot { node: MarkupNode::Comment, below: Vec::new() },
        MarkupRoot { node: element_at(2, 9), below: vec![element_at(3, 1)] },
    ];
    assert!(is_in_text_order(&ordered));
    assert!(is_in_text_order(&Vec::new()));
    // a node below a root that starts before the root
    let child_first = vec![MarkupRoot { node: element_at(1, 6), below: vec![element_at(1, 1)] }];
    assert!(!is_in_text_order(&child_first));
    // two roots the wrong way round
    let roots_swapped = vec![
        MarkupRoot { node: element_at(2, 1), below: Vec::new() },
        MarkupRoot { node: element_at(1, 1), below: Vec::new() },
    ];
    assert!(!is_in_text_order(&roots_swapped));
    // two elements at one place
    let same_place = vec![MarkupRoot { node: element_at(1, 1), below: vec![element_at(1, 1)] }];
    assert!(!is_in_text_order(&same_place));
    // once out of order, always out of order
    let late = vec![
        MarkupRoot { node: element_at(5, 1), below: vec![element_at(4, 1), element_at(6, 1)] },
    ];
    assert!(!is_in_text_order(&late));
}

#[test]
fn references_are_found_in_a_text_of_many_lines() {
    let text = "<div>\n  <img src=\"a\">\n  <p>caption <img src=\"b\"></p>\n</div>\n<img src=\"c\">\r\n<section><img src=\"d\"/>\n\n<img src=\"e\"></section>";
    assert_eq!(search_ref(text), Some(keys(&["a", "b", "c", "d", "e"])));
    let page = "<!doctype html>\n<html>\n<head><title>t</title></head>\n<body>\n<h1>x</h1>\n<img src=\"one.jpg\">\n<ul><li><img src=\"two.jpg\"></li><li><img src=\"three.jpg\"></li></ul>\n</body>\n</html>";
    assert_eq!(search_ref(page), Some(keys(&["one.jpg", "two.jpg", "three.jpg"])));
}
