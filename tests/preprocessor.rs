use code_preprocessor::{Book, BookItem, Chapter, CodePreprocessor};

fn chapter(name: &str, content: &str, sub_items: Vec<BookItem>) -> BookItem {
    BookItem::Chapter(Chapter {
        name: name.to_string(),
        content: content.to_string(),
        sub_items,
    })
}

fn content_of(item: &BookItem) -> &str {
    match item {
        BookItem::Chapter(ch) => ch.content.as_str(),
        _ => panic!("not a chapter"),
    }
}

#[test]
fn supports_only_html() {
    let pre = CodePreprocessor::new();
    assert!(pre.supports_renderer("html"));
    assert!(!pre.supports_renderer("latex"));
    assert!(!pre.supports_renderer("markdown"));
    assert!(!pre.supports_renderer("htm"));
    assert!(!pre.supports_renderer(""));
}

#[test]
fn preprocessor_name() {
    assert_eq!(CodePreprocessor::new().name(), "code-preprocessor");
}

#[test]
fn nested_chapters_are_transformed() {
    let marked = "```\n%%x%%\n```";
    let rendered = "<pre><code><span class=\"code-user-input\">x</span>\n</code></pre>\n";
    let inner = chapter("Inner", marked, vec![]);
    let middle = chapter("Middle", "plain", vec![inner, BookItem::Separator]);
    let book = Book {
        sections: vec![
            BookItem::PartTitle("Part %% one".to_string()),
            chapter("Top", marked, vec![middle]),
            BookItem::Separator,
        ],
    };
    let out = CodePreprocessor::new().run(&book);
    assert_eq!(out.sections.len(), 3);
    match &out.sections[0] {
        BookItem::PartTitle(t) => assert_eq!(t, "Part %% one"),
        _ => panic!("part title expected"),
    }
    assert!(matches!(out.sections[2], BookItem::Separator));
    assert_eq!(content_of(&out.sections[1]), rendered);
    let top = match &out.sections[1] {
        BookItem::Chapter(ch) => ch,
        _ => panic!("chapter expected"),
    };
    assert_eq!(top.name, "Top");
    assert_eq!(top.sub_items.len(), 1);
    let middle = match &top.sub_items[0] {
        BookItem::Chapter(ch) => ch,
        _ => panic!("chapter expected"),
    };
    assert_eq!(middle.content, "plain");
    assert_eq!(middle.sub_items.len(), 2);
    assert_eq!(content_of(&middle.sub_items[0]), rendered);
    assert!(matches!(middle.sub_items[1], BookItem::Separator));
}

#[test]
fn empty_book_stays_empty() {
    let out = CodePreprocessor::new().run(&Book { sections: vec![] });
    assert!(out.sections.is_empty());
}
