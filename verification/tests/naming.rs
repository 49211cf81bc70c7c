//! Derived paths, URLs, and the shaping of database messages.

use streamwatch::types::{db_message_to_item, Clip, DbMessage, StreamFileName};

fn clip(id: i64) -> Clip {
    Clip {
        id,
        author_id: 1,
        author_username: "ada".to_string(),
        stream_id: 2,
        start_time: 10,
        duration: 30,
        title: None,
        created_at: 0,
        view_count: 0,
    }
}

#[test]
fn stream_paths_derive_from_the_file_name() {
    let name = StreamFileName::new("2021-01-01 stream.mp4".to_string());
    assert_eq!(name.as_str(), "2021-01-01 stream.mp4");
    assert_eq!(
        name.stream_path("./streams"),
        "./streams/2021-01-01 stream.mp4"
    );
    assert_eq!(
        name.chat_file_path("./streams"),
        "./streams/2021-01-01 stream.txt.zst"
    );
    assert_eq!(
        name.extra_info_file_path("./streams"),
        "./streams/2021-01-01 stream.yaml"
    );
}

#[test]
fn extensionless_file_names_get_an_extension_appended() {
    let name = StreamFileName::new("recording".to_string());
    assert_eq!(
        name.chat_file_path("/var/streams"),
        "/var/streams/recording.txt.zst"
    );
}

#[test]
fn only_the_last_dot_counts_as_the_extension() {
    let name = StreamFileName::new("a.b.mp4".to_string());
    assert_eq!(name.chat_file_path("d"), "d/a.b.txt.zst");
}

#[test]
fn clip_paths_and_urls_carry_the_id() {
    assert_eq!(Clip::preview_path(17), "./previews/clips/17.webm");
    assert_eq!(Clip::thumbnail_path(17), "./thumbnails/clips/17.webp");
    let c = clip(-3);
    assert_eq!(c.preview_url(), "/preview/clips/-3.webm");
    assert_eq!(c.thumbnail_url(), "/thumbnail/clips/-3.webp");
}

#[test]
fn clip_paths_render_large_ids() {
    assert_eq!(
        Clip::preview_path(9007199254740993),
        "./previews/clips/9007199254740993.webm"
    );
    assert_eq!(
        Clip::preview_path(i64::MIN),
        "./previews/clips/-9223372036854775808.webm"
    );
}

#[test]
fn db_message_becomes_a_chat_item() {
    let m = DbMessage {
        id: 12,
        author_id: 7,
        message: "hello".to_string(),
        time: 1609459205000,
        real_time: 1609459205000,
        author_name: "ada".to_string(),
    };
    let item = db_message_to_item(&m);
    assert_eq!(item.ts, 1609459205000);
    assert_eq!(
        item.content,
        "{\"type\":\"chat\",\"tags\":{\"user-id\":\"db_7\",\"display-name\":\"ada\",\"id\":\"db_12\"},\"message\":\"hello\"}"
    );
    // the payload is well-formed JSON
    assert!(serde_json::from_str::<serde_json::Value>(&item.content).is_ok());
}

#[test]
fn db_timeline_keeps_its_order() {
    let rows: Vec<DbMessage> = (0..3)
        .map(|n| DbMessage {
            id: n,
            author_id: n,
            message: format!("m{}", n),
            time: 1000 + n,
            real_time: 1000 + n,
            author_name: "ada".to_string(),
        })
        .collect();
    let items = streamwatch::types::db_messages_to_items(&rows);
    let tss: Vec<i64> = items.iter().map(|i| i.ts).collect();
    assert_eq!(tss, vec![1000, 1001, 1002]);
    assert!(items[1].content.contains("\"m1\""));
}

#[test]
fn db_message_payload_escapes_the_text() {
    let m = DbMessage {
        id: 1,
        author_id: 2,
        message: "say \"hi\"\\\n".to_string(),
        time: 0,
        real_time: 0,
        author_name: "a\tb".to_string(),
    };
    let item = db_message_to_item(&m);
    let v: serde_json::Value = serde_json::from_str(&item.content).unwrap();
    assert_eq!(v["message"], "say \"hi\"\\\n");
    assert_eq!(v["tags"]["display-name"], "a\tb");
    assert!(item.content.contains("\\\"hi\\\""));
    assert!(item.content.contains("\\u000a"));
    assert!(item.content.contains("\\u0009"));
}
