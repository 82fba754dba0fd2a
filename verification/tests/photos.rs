use lily_nest::api::{
    begin_upload, check_update_request, classify_upload_field, content_url, derive_title,
    photo_summary, security_headers, upload_item_title, uploaded_item, UploadField,
};
use lily_nest::db::photo_record_from_row;
use lily_nest::media::{choose_stored_image, rewrite_filename_to_jpeg};
use lily_nest::model::UpdatePhotoRequest;
use lily_nest::text::{is_whitespace, trim_str};

#[test]
fn titles_are_derived_from_title_file_name_or_index() {
    assert_eq!(derive_title("Trip", None, false, 0), "Trip");
    assert_eq!(derive_title("Trip", Some("a.png"), true, 1), "Trip 2");
    assert_eq!(derive_title("", Some("a.png"), true, 1), "a.png");
    assert_eq!(derive_title("", Some("   "), false, 0), "未命名照片 1");
    assert_eq!(derive_title("", None, true, 9), "未命名照片 10");
}

#[test]
fn jpeg_file_names() {
    assert_eq!(rewrite_filename_to_jpeg("photo.png".to_string()), "photo.jpg");
    assert_eq!(rewrite_filename_to_jpeg(" a.b.c ".to_string()), "a.b.jpg");
    assert_eq!(rewrite_filename_to_jpeg("noext".to_string()), "noext.jpg");
    assert_eq!(rewrite_filename_to_jpeg(".hidden".to_string()), ".hidden.jpg");
    assert_eq!(rewrite_filename_to_jpeg("".to_string()), ".jpg");
}

#[test]
fn smaller_encoding_is_stored() {
    let kept = choose_stored_image(Some("a.png".to_string()), "image/png".to_string(), vec![1, 2], vec![9, 9, 9]);
    assert_eq!(kept.data, vec![1, 2]);
    assert_eq!(kept.mime_type, "image/png");
    assert_eq!(kept.filename.as_deref(), Some("a.png"));

    let equal = choose_stored_image(None, "image/gif".to_string(), vec![1, 2], vec![3, 4]);
    assert_eq!(equal.data, vec![1, 2]);
    assert_eq!(equal.mime_type, "image/gif");

    let smaller = choose_stored_image(Some("b.webp".to_string()), "image/webp".to_string(), vec![1, 2, 3], vec![7]);
    assert_eq!(smaller.data, vec![7]);
    assert_eq!(smaller.mime_type, "image/jpeg");
    assert_eq!(smaller.filename.as_deref(), Some("b.jpg"));
}

#[test]
fn content_urls() {
    assert_eq!(content_url(42), "/api/v1/photos/42/content");
    assert_eq!(content_url(0), "/api/v1/photos/0/content");
    assert_eq!(content_url(-7), "/api/v1/photos/-7/content");
    assert_eq!(content_url(i64::MIN), format!("/api/v1/photos/{}/content", i64::MIN));
}

#[test]
fn summaries_and_upload_items() {
    let photo = photo_record_from_row(
        3,
        "t".to_string(),
        "d".to_string(),
        "a,b".to_string(),
        None,
        "image/jpeg".to_string(),
        vec![0; 10],
        "now".to_string(),
    );
    let item = uploaded_item(&photo);
    assert_eq!(item.id, 3);
    assert_eq!(item.title, "t");
    assert_eq!(item.content_url, "/api/v1/photos/3/content");
    let summary = photo_summary(photo);
    assert_eq!(summary.byte_size, 10);
    assert_eq!(summary.tags, vec!["a".to_string(), "b".to_string()]);
    assert_eq!(summary.content_url, "/api/v1/photos/3/content");
}

#[test]
fn security_headers_include_nosniff_and_csp() {
    let headers = security_headers();
    assert!(headers.contains(&("x-content-type-options", "nosniff")));
    assert!(headers.iter().any(|(name, _)| *name == "content-security-policy"));
    assert_eq!(headers.len(), 5);
}

#[test]
fn update_requests() {
    let bad = check_update_request(&UpdatePhotoRequest {
        title: "  ".to_string(),
        description: "d".to_string(),
        tags: "".to_string(),
    });
    match bad {
        Err(e) => {
            assert_eq!(e.status, 400);
            assert_eq!(e.message, "title cannot be empty");
        }
        Ok(_) => panic!("blank title accepted"),
    }
    let edit = check_update_request(&UpdatePhotoRequest {
        title: " New ".to_string(),
        description: " text ".to_string(),
        tags: "x, y,".to_string(),
    })
    .ok()
    .unwrap();
    assert_eq!(edit.title, "New");
    assert_eq!(edit.description, "text");
    assert_eq!(edit.tags, vec!["x".to_string(), "y".to_string()]);
}

#[test]
fn uploads() {
    let none = begin_upload(Some("t".to_string()), String::new(), 0);
    match none {
        Err(e) => {
            assert_eq!(e.status, 400);
            assert_eq!(e.message, "missing photo file");
        }
        Ok(_) => panic!("empty upload accepted"),
    }
    let plan = begin_upload(Some(" Trip ".to_string()), " d ".to_string(), 2).ok().unwrap();
    assert_eq!(plan.title, "Trip");
    assert_eq!(plan.description, "d");
    assert!(plan.multiple);
    let untitled = begin_upload(None, String::new(), 1).ok().unwrap();
    assert_eq!(untitled.title, "");
    assert!(!untitled.multiple);

    assert_eq!(upload_item_title(&plan, Some("a.png"), Some("image/png"), 0).ok().as_deref(), Some("Trip 1"));
    match upload_item_title(&plan, None, None, 0) {
        Err(e) => assert_eq!(e.message, "missing image content type"),
        Ok(_) => panic!("missing type accepted"),
    }
    match upload_item_title(&plan, None, Some("text/plain"), 0) {
        Err(e) => assert_eq!(e.message, "only image uploads are supported"),
        Ok(_) => panic!("text accepted"),
    }
    assert_eq!(upload_item_title(&untitled, Some("x.gif"), Some("image/gif"), 0).ok().as_deref(), Some("x.gif"));

    assert!(matches!(classify_upload_field("title"), UploadField::Title));
    assert!(matches!(classify_upload_field("description"), UploadField::Description));
    assert!(matches!(classify_upload_field("photo"), UploadField::Photo));
    assert!(matches!(classify_upload_field("other"), UploadField::Ignored));
}

#[test]
fn whitespace_and_trim() {
    assert!(is_whitespace(' '));
    assert!(is_whitespace('\u{3000}'));
    assert!(!is_whitespace('a'));
    assert!(is_whitespace('\u{85}'));
    assert!(!is_whitespace('\u{200b}'));
    for c in ['\t', '\n', '\u{a0}', '\u{2028}', 'x', '\u{feff}'] {
        assert_eq!(is_whitespace(c), c.is_whitespace());
    }
    assert_eq!(trim_str("\u{3000} a b \t"), "a b");
    assert_eq!(trim_str("   "), "");
}
