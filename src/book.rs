use vstd::prelude::*;

use crate::fence::{rewrite, rewrite_chapter};

verus! {

broadcast use vstd::std_specs::vec::group_vec_axioms;

/// A chapter of a book: its title, its Markdown text and the items nested
/// under it.
pub struct Chapter {
    pub name: String,
    pub content: String,
    pub sub_items: Vec<BookItem>,
}

/// An item of a book's table of contents.
pub enum BookItem {
    Chapter(Chapter),
    Separator,
    PartTitle(String),
}

/// A book: its top-level items, in order.
pub struct Book {
    pub sections: Vec<BookItem>,
}

/// `after` is `before` with the text of every chapter in it rewritten, nested
/// chapters included, and every other item as it was.
pub open spec fn item_transformed(before: BookItem, after: BookItem) -> bool
    decreases before, 0nat,
{
    match before {
        BookItem::Chapter(b) => match after {
            BookItem::Chapter(a) => {
                &&& a.name@ == b.name@
                &&& a.content@ == rewrite(b.content@)
                &&& a.sub_items@.len() == b.sub_items@.len()
                &&& prefix_transformed(b.sub_items@, a.sub_items@, b.sub_items@.len())
            },
            _ => false,
        },
        _ => after == before,
    }
}

/// The first `n` items of `after` are those of `before`, each transformed.
pub open spec fn prefix_transformed(before: Seq<BookItem>, after: Seq<BookItem>, n: nat) -> bool
    decreases before, n,
{
    if n == 0 {
        true
    } else if n > before.len() || n > after.len() {
        false
    } else {
        prefix_transformed(before, after, (n - 1) as nat) && item_transformed(
            before[n - 1],
            after[n - 1],
        )
    }
}

/// Items transformed one by one make a transformed prefix.
proof fn lemma_prefix_transformed(before: Seq<BookItem>, after: Seq<BookItem>, n: nat)
    requires
        n <= before.len(),
        n <= after.len(),
        forall|k: int| 0 <= k < n ==> #[trigger] item_transformed(before[k], after[k]),
    ensures
        prefix_transformed(before, after, n),
    decreases n,
{
    if n > 0 {
        lemma_prefix_transformed(before, after, (n - 1) as nat);
        assert(item_transformed(before[n - 1], after[n - 1]));
    }
}

/// `after` holds the items of `before`, in the same order, each transformed.
pub open spec fn items_transformed(before: Seq<BookItem>, after: Seq<BookItem>) -> bool {
    &&& after.len() == before.len()
    &&& forall|i: int| 0 <= i < before.len() ==> #[trigger] item_transformed(before[i], after[i])
}

/// One item with every chapter in it rewritten.
pub fn transform_item(item: &BookItem) -> (r: BookItem)
    ensures
        item_transformed(*item, r),
    decreases item,
{
    match item {
        BookItem::Chapter(ch) => {
            let mut subs: Vec<BookItem> = Vec::new();
            let mut i: usize = 0;
            while i < ch.sub_items.len()
                invariant
                    *item == BookItem::Chapter(*ch),
                    i <= ch.sub_items.len(),
                    subs.len() == i,
                    forall|k: int|
                        0 <= k < i ==> #[trigger] item_transformed(ch.sub_items@[k], subs@[k]),
                decreases ch.sub_items.len() - i,
            {
                proof {
                    assert(decreases_to!(*item => (*item)->Chapter_0));
                    assert(decreases_to!(ch.sub_items => ch.sub_items[i as int]));
                }
                let t = transform_item(&ch.sub_items[i]);
                subs.push(t);
                i = i + 1;
            }
            proof {
                lemma_prefix_transformed(ch.sub_items@, subs@, ch.sub_items@.len());
            }
            BookItem::Chapter(
                Chapter {
                    name: ch.name.clone(),
                    content: rewrite_chapter(ch.content.as_str()),
                    sub_items: subs,
                },
            )
        },
        BookItem::Separator => BookItem::Separator,
        BookItem::PartTitle(t) => BookItem::PartTitle(t.clone()),
    }
}

/// A preprocessor that turns fenced code blocks marked with `%%` into HTML
/// blocks with user-input spans.
pub struct CodePreprocessor;

impl CodePreprocessor {
    pub fn new() -> (r: CodePreprocessor) {
        CodePreprocessor
    }

    /// The name under which the host knows this preprocessor.
    pub fn name(&self) -> (r: &'static str)
        ensures
            r@ == "code-preprocessor"@,
    {
        "code-preprocessor"
    }

    /// Whether this preprocessor serves the renderer called `renderer`: only
    /// `html` is served.
    pub fn supports_renderer(&self, renderer: &str) -> (r: bool)
        ensures
            r == (renderer@ == "html"@),
    {
        let html = crate::text::chars_of("html");
        let given = crate::text::chars_of(renderer);
        if given.len() != html.len() {
            proof {
                if renderer@ == "html"@ {
                    assert(given@.len() == html@.len());
                }
            }
            return false;
        }
        let mut i: usize = 0;
        while i < given.len()
            invariant
                i <= given.len(),
                given.len() == html.len(),
                given@ == renderer@,
                html@ == "html"@,
                forall|k: int| 0 <= k < i ==> given@[k] == html@[k],
            decreases given.len() - i,
        {
            if given[i] != html[i] {
                return false;
            }
            i = i + 1;
        }
        assert(given@ =~= html@);
        true
    }

    /// The book with the text of every chapter rewritten, nested chapters
    /// included; every other item is passed on as it was.
    pub fn run(&self, book: &Book) -> (r: Book)
        ensures
            items_transformed(book.sections@, r.sections@),
    {
        let mut out: Vec<BookItem> = Vec::new();
        let mut i: usize = 0;
        while i < book.sections.len()
            invariant
                i <= book.sections.len(),
                out.len() == i,
                forall|k: int|
                    0 <= k < i ==> #[trigger] item_transformed(book.sections[k], out[k]),
            decreases book.sections.len() - i,
        {
            let t = transform_item(&book.sections[i]);
            out.push(t);
            i = i + 1;
        }
        Book { sections: out }
    }
}

} // verus!
