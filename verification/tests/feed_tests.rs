use sudoku_solver::feed::{
    find_url_attribute, podcasts_from_events, read_podcasts_from_xml, Attribute, FeedEvent,
    Podcast,
};

fn attr(name: &str, value: &str) -> Attribute {
    Attribute { name: name.to_string(), value: value.to_string() }
}

fn start(name: &str, attributes: Vec<Attribute>) -> FeedEvent {
    FeedEvent::ElementStart { name: name.to_string(), attributes }
}

fn cdata(content: &str) -> FeedEvent {
    FeedEvent::CData { content: content.to_string() }
}

fn end(name: &str) -> FeedEvent {
    FeedEvent::ElementEnd { name: name.to_string() }
}

#[test]
fn events_of_one_item_build_one_podcast() {
    let events = vec![
        start("rss", vec![]),
        start("item", vec![]),
        start("title", vec![]),
        cdata("My show"),
        start("description", vec![]),
        cdata("All about things"),
        start("enclosure", vec![attr("url", "http://example.com/a.mp3")]),
        end("item"),
        end("rss"),
    ];
    let podcasts = podcasts_from_events(&events);
    assert_eq!(podcasts.len(), 1);
    assert_eq!(podcasts[0].title, "My show");
    assert_eq!(podcasts[0].description, "All about things");
    assert_eq!(podcasts[0].audio_file.as_deref(), Some("http://example.com/a.mp3"));
}

#[test]
fn item_without_enclosure_has_no_audio_file() {
    let events = vec![
        start("title", vec![]),
        cdata("A"),
        start("description", vec![]),
        cdata("B"),
        end("item"),
    ];
    let podcasts = podcasts_from_events(&events);
    assert_eq!(podcasts.len(), 1);
    assert_eq!(podcasts[0].audio_file, None);
}

#[test]
fn cdata_outside_title_or_description_is_ignored() {
    let events = vec![cdata("stray"), start("title", vec![]), cdata("Real"), end("item")];
    let podcasts = podcasts_from_events(&events);
    assert_eq!(podcasts.len(), 1);
    assert_eq!(podcasts[0].title, "Real");
    assert_eq!(podcasts[0].description, "");
}

#[test]
fn two_items_build_two_podcasts() {
    let events = vec![
        start("title", vec![]),
        cdata("One"),
        end("item"),
        start("title", vec![]),
        cdata("Two"),
        end("item"),
    ];
    let podcasts = podcasts_from_events(&events);
    assert_eq!(podcasts.len(), 2);
    assert_eq!(podcasts[0].title, "One");
    assert_eq!(podcasts[1].title, "Two");
}

#[test]
fn find_url_attribute_takes_first_url() {
    let attrs = vec![attr("length", "10"), attr("url", "first"), attr("url", "second")];
    assert_eq!(find_url_attribute(&attrs).as_deref(), Some("first"));
    let no_url = vec![attr("length", "10"), attr("type", "audio/mpeg")];
    assert_eq!(find_url_attribute(&no_url), None);
}

#[test]
fn to_html_embeds_title_description_and_audio() {
    let p = Podcast {
        title: "Show".to_string(),
        description: "Desc".to_string(),
        audio_file: Some("http://example.com/x.mp3".to_string()),
    };
    let html = p.to_html();
    let expected = format!(
        "\n            <html>\n                <head>\n                    <title>My Podcast: {}</title>\n                </head>\n                <body>\n                    <h1>{}</h1>\n                    <p>{}</p>\n                    <audio controls src=\"{}\"></audio>\n                </body>\n            </html>\n                ",
        "Show", "Show", "Desc", "http://example.com/x.mp3"
    );
    assert_eq!(html, expected);
}

#[test]
fn to_html_without_audio_names_placeholder() {
    let p = Podcast {
        title: "T".to_string(),
        description: "D".to_string(),
        audio_file: None,
    };
    let html = p.to_html();
    assert!(html.contains("<audio controls src=\"No file available\"></audio>"));
}

#[test]
fn podcast_new_is_empty() {
    let p = Podcast::new();
    assert_eq!(p.title, "");
    assert_eq!(p.description, "");
    assert_eq!(p.audio_file, None);
}

#[test]
fn reads_podcasts_from_xml_text() {
    let xml = "<rss><channel>\
        <item><title><![CDATA[Ep 1]]></title>\
        <description><![CDATA[First episode]]></description>\
        <enclosure url=\"http://example.com/ep1.mp3\" length=\"1\" type=\"audio/mpeg\"/>\
        </item>\
        <item><title><![CDATA[Ep 2]]></title>\
        <description><![CDATA[Second]]></description>\
        </item>\
        </channel></rss>";
    let podcasts = read_podcasts_from_xml(xml);
    assert_eq!(podcasts.len(), 2);
    assert_eq!(podcasts[0].title, "Ep 1");
    assert_eq!(podcasts[0].description, "First episode");
    assert_eq!(podcasts[0].audio_file.as_deref(), Some("http://example.com/ep1.mp3"));
    assert_eq!(podcasts[1].title, "Ep 2");
    assert_eq!(podcasts[1].description, "Second");
    assert_eq!(podcasts[1].audio_file, None);
}

#[test]
fn plain_text_without_cdata_is_ignored() {
    // The feed reader reacts to CDATA sections only: plain character data
    // arrives as a different event and leaves the fields empty.
    let xml = "<rss><item><title>Plain</title></item></rss>";
    let podcasts = read_podcasts_from_xml(xml);
    assert_eq!(podcasts.len(), 1);
    assert_eq!(podcasts[0].title, "");
}

#[test]
fn malformed_xml_yields_no_podcasts() {
    let podcasts = read_podcasts_from_xml("not xml at all <<<");
    assert_eq!(podcasts.len(), 0);
}
