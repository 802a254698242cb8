//! The tree of a book, and the pass that pads every chapter of it.

use crate::lemmas::lemma_bodies_give_padded;
use crate::rules::{evaluate, Config, ConfigView};
use vstd::prelude::*;

verus! {

/// Where a chapter's source lies.
#[derive(Clone, Debug, PartialEq, Eq)]
pub enum ChapterPath {
    /// The chapter has no path.
    Missing,
    /// The chapter has a path that is not valid text.
    NotText,
    /// The path, as text.
    Text(String),
}

/// What the pass did with one chapter.
#[derive(Clone, Copy, Debug, PartialEq, Eq)]
pub enum Outcome {
    /// At least one rule matched: the body was replaced.
    Padded,
    /// The path matched no rule: the body was left as it was.
    NoMatch,
    /// The chapter has no path: it was left as it was.
    NoPath,
    /// The chapter's path is not valid text: it was left as it was.
    PathNotText,
}

/// A chapter: a body, where it lies, and what is nested under it.
#[derive(Debug, PartialEq, Eq)]
pub struct Chapter {
    pub name: String,
    pub content: String,
    pub path: ChapterPath,
    pub sub_items: Vec<BookItem>,
}

/// One entry of a book.
#[derive(Debug, PartialEq, Eq)]
pub enum BookItem {
    Chapter(Chapter),
    Separator,
    PartTitle(String),
}

/// A book: its entries, in order.
#[derive(Debug, PartialEq, Eq, Default)]
pub struct Book {
    pub sections: Vec<BookItem>,
}

/// What the pass decides for a chapter with body `content` at `path`: the
/// outcome, and the body that the chapter has afterwards.
pub open spec fn routed(config: ConfigView, content: Seq<char>, path: ChapterPath) -> (
    Outcome,
    Seq<char>,
) {
    match path {
        ChapterPath::Missing => (Outcome::NoPath, content),
        ChapterPath::NotText => (Outcome::PathNotText, content),
        ChapterPath::Text(text) => match evaluate(config, content, text@) {
            Some(body) => (Outcome::Padded, body),
            None => (Outcome::NoMatch, content),
        },
    }
}

/// `after` is `before` with every chapter padded, at every depth: the same
/// entries in the same places, nothing changed but the chapters' bodies.
pub open spec fn item_padded(config: ConfigView, before: BookItem, after: BookItem) -> bool
    decreases before,
{
    match before {
        BookItem::Chapter(b) => {
            &&& after matches BookItem::Chapter(a)
            &&& a.name == b.name
            &&& a.path == b.path
            &&& a.content@ == routed(config, b.content@, b.path).1
            &&& a.sub_items.len() == b.sub_items.len()
            &&& forall|i: int|
                0 <= i < b.sub_items.len() ==> item_padded(
                    config,
                    #[trigger] b.sub_items[i],
                    a.sub_items[i],
                )
        },
        _ => after == before,
    }
}

/// `after` is `before` with every entry padded.
pub open spec fn items_padded(
    config: ConfigView,
    before: Seq<BookItem>,
    after: Seq<BookItem>,
) -> bool {
    &&& after.len() == before.len()
    &&& forall|i: int|
        0 <= i < before.len() ==> item_padded(config, #[trigger] before[i], after[i])
}

/// A chapter as the walk meets it, as a plain value: its name, its body and
/// where it lies, without what is nested under it.
pub struct RecordView {
    pub name: String,
    pub content: String,
    pub path: ChapterPath,
}

/// A handle on one chapter of a book: its name and path to read, and its
/// body to read and to write. What is written through `content` is written
/// into the book.
#[derive(Debug)]
pub struct ChapterRecord<'a> {
    pub name: &'a String,
    pub content: &'a mut String,
    pub path: &'a ChapterPath,
}

/// The chapters among the first `n` entries of `items` and under them, in
/// the order of a walk that takes a chapter before what is nested under it,
/// and that before the next entry. Entries that are no chapters are passed
/// over.
pub open spec fn chapter_records(items: Seq<BookItem>, n: nat) -> Seq<RecordView>
    decreases items, n,
{
    if n == 0 || n > items.len() {
        Seq::empty()
    } else {
        chapter_records(items, (n - 1) as nat) + (match items[n - 1] {
            BookItem::Chapter(ch) => seq![
                RecordView { name: ch.name, content: ch.content, path: ch.path },
            ] + chapter_records(ch.sub_items@, ch.sub_items@.len()),
            _ => Seq::empty(),
        })
    }
}

/// The number of entries among the first `n` of `items` and under them.
pub open spec fn node_count(items: Seq<BookItem>, n: nat) -> nat
    decreases items, n,
{
    if n == 0 || n > items.len() {
        0
    } else {
        node_count(items, (n - 1) as nat) + 1 + (match items[n - 1] {
            BookItem::Chapter(ch) => node_count(ch.sub_items@, ch.sub_items@.len()),
            _ => 0,
        })
    }
}

/// `after` has the entries of `before` in the same places, with the same
/// names and paths: nothing differs but the chapters' bodies.
pub open spec fn item_same_shape(before: BookItem, after: BookItem) -> bool
    decreases before,
{
    match before {
        BookItem::Chapter(b) => {
            &&& after matches BookItem::Chapter(a)
            &&& a.name == b.name
            &&& a.path == b.path
            &&& a.sub_items.len() == b.sub_items.len()
            &&& forall|i: int|
                0 <= i < b.sub_items.len() ==> item_same_shape(
                    #[trigger] b.sub_items[i],
                    a.sub_items[i],
                )
        },
        _ => after == before,
    }
}

/// `after` is `before` but for the chapters' bodies.
pub open spec fn same_shape(before: Seq<BookItem>, after: Seq<BookItem>) -> bool {
    &&& after.len() == before.len()
    &&& forall|i: int| 0 <= i < before.len() ==> item_same_shape(#[trigger] before[i], after[i])
}

/// The walk of the first `k` entries does not look at the entries behind
/// them.
pub proof fn lemma_walk_of_prefix(items: Seq<BookItem>, front: Seq<BookItem>, k: nat)
    requires
        k <= front.len() <= items.len(),
        forall|i: int| 0 <= i < front.len() ==> front[i] == items[i],
    ensures
        chapter_records(front, k) == chapter_records(items, k),
        node_count(front, k) == node_count(items, k),
    decreases k,
{
    if k > 0 {
        lemma_walk_of_prefix(items, front, (k - 1) as nat);
    }
}

/// Walks `items` and appends a handle on every chapter to `accumulator`: a
/// chapter first, then what is nested under it, then the next entry. Each
/// handle shows the chapter's name, body and path, and the book afterwards
/// is the book before with, in each chapter, the body that its handle is
/// left with.
pub fn all_chapter_records<'a>(
    items: &'a mut [BookItem],
    accumulator: &mut Vec<ChapterRecord<'a>>,
)
    ensures
        final(accumulator)@.len() == old(accumulator)@.len() + chapter_records(
            old(items)@,
            old(items)@.len(),
        ).len(),
        forall|k: int|
            0 <= k < old(accumulator)@.len() ==> #[trigger] final(accumulator)@[k] == old(
                accumulator,
            )@[k],
        forall|k: int|
            0 <= k < chapter_records(old(items)@, old(items)@.len()).len() ==> {
                let record = #[trigger] final(accumulator)@[old(accumulator)@.len() + k];
                let met = chapter_records(old(items)@, old(items)@.len())[k];
                &&& *record.name == met.name
                &&& *record.content == met.content
                &&& *record.path == met.path
            },
        same_shape(old(items)@, final(items)@),
        chapter_records(final(items)@, old(items)@.len()).len() == chapter_records(
            old(items)@,
            old(items)@.len(),
        ).len(),
        forall|k: int|
            0 <= k < chapter_records(old(items)@, old(items)@.len()).len() ==> (
            #[trigger] chapter_records(final(items)@, old(items)@.len())[k]).content
                == *final(final(accumulator)@[old(accumulator)@.len() + k].content),
    decreases node_count(old(items)@, old(items)@.len()),
{
    let n = items.len();
    if n == 0 {
        return ;
    }
    let ghost before = items@;
    let ghost items_after = final(items)@;
    let ghost acc0 = accumulator@;
    let (init, last) = items.split_at_mut(n - 1);
    let ghost init_before = init@;
    let ghost init_after = final(init)@;
    let ghost last_after = final(last)@;
    proof {
        lemma_walk_of_prefix(before, init_before, (n - 1) as nat);
    }
    all_chapter_records(init, accumulator);
    let ghost acc1 = accumulator@;
    let ghost after = init_after + last_after;
    let ghost w1 = chapter_records(before, (n - 1) as nat);
    proof {
        assert(init_after.len() == n - 1);
        assert(last@.len() == 1 && last@[0] == before[n - 1]);
        lemma_walk_of_prefix(after, init_after, (n - 1) as nat);
        assert forall|i: int| 0 <= i < n - 1 implies item_same_shape(
            #[trigger] before[i],
            after[i],
        ) by {
            assert(item_same_shape(init_before[i], init_after[i]));
        }
    }
    match last.first_mut() {
        Some(BookItem::Chapter(ch)) => {
            let ghost met = RecordView { name: ch.name, content: ch.content, path: ch.path };
            let ghost sub_before = ch.sub_items@;
            accumulator.push(
                ChapterRecord { name: &ch.name, content: &mut ch.content, path: &ch.path },
            );
            let ghost acc2 = accumulator@;
            let sub = ch.sub_items.as_mut_slice();
            let ghost sub_after = final(sub)@;
            all_chapter_records(sub, accumulator);
            proof {
                let acc3 = accumulator@;
                let ws = chapter_records(sub_before, sub_before.len());
                let w = chapter_records(before, n as nat);
                assert(w == w1 + (seq![met] + ws));
                assert(after[n - 1] == last_after[0]);
                assert(after[n - 1] is Chapter);
                let a = after[n - 1]->Chapter_0;
                assert(a.sub_items@ == sub_after);
                assert(a.name == met.name && a.path == met.path);
                assert(a.content == *final(acc2[acc1.len() as int].content));
                assert forall|j: int| 0 <= j < sub_before.len() implies item_same_shape(
                    #[trigger] before[n - 1]->Chapter_0.sub_items[j],
                    a.sub_items[j],
                ) by {
                    assert(item_same_shape(sub_before[j], sub_after[j]));
                }
                assert(item_same_shape(before[n - 1], after[n - 1]));
                let wa = chapter_records(after, n as nat);
                let met_after = RecordView { name: a.name, content: a.content, path: a.path };
                let wsa = chapter_records(sub_after, sub_after.len());
                assert(wa == chapter_records(init_after, (n - 1) as nat) + (seq![met_after]
                    + wsa));
                assert forall|k: int| 0 <= k < w.len() implies {
                    let record = #[trigger] acc3[acc0.len() + k];
                    &&& *record.name == w[k].name
                    &&& *record.content == w[k].content
                    &&& *record.path == w[k].path
                    &&& wa[k].content == *final(record.content)
                } by {
                    if k < w1.len() {
                        assert(acc3[acc0.len() + k] == acc2[acc0.len() + k]);
                        assert(acc2[acc0.len() + k] == acc1[acc0.len() + k]);
                        assert(w[k] == w1[k]);
                    } else if k == w1.len() {
                        assert(acc3[acc0.len() + k] == acc2[acc1.len() as int]);
                    } else {
                        let j = k - w1.len() - 1;
                        assert(acc3[acc0.len() + k] == acc3[acc2.len() + j]);
                        assert(w[k] == ws[j]);
                        assert(wa[k] == wsa[j]);
                    }
                }
                assert forall|k: int| 0 <= k < acc0.len() implies #[trigger] acc3[k]
                    == acc0[k] by {
                    assert(acc3[k] == acc2[k]);
                    assert(acc1[k] == acc0[k]);
                }
            }
        },
        _ => {
            proof {
                assert(after[n - 1] == last_after[0]);
                assert(after[n - 1] == before[n - 1]);
                assert(chapter_records(before, n as nat) =~= w1);
                assert(chapter_records(after, n as nat) =~= chapter_records(
                    init_after,
                    (n - 1) as nat,
                ));
            }
        },
    }
    proof {
        assert(items_after == after);
    }
}

/// What the pass decides for a chapter that the walk met.
pub open spec fn outcome_of(config: ConfigView) -> spec_fn(RecordView) -> Outcome {
    |record: RecordView| routed(config, record.content@, record.path).0
}

/// The outcomes of the chapters of `items`, in the order of the walk.
pub open spec fn outcomes(config: ConfigView, items: Seq<BookItem>) -> Seq<Outcome> {
    chapter_records(items, items.len()).map_values(outcome_of(config))
}

impl Config {
    /// Pads the body of one chapter, not what is nested under it, and says
    /// what was done. A chapter without a path, or with one that is not
    /// text, is left as it is, and so is one whose path matches no rule.
    pub fn pad_entry(&self, content: &mut String, path: &ChapterPath) -> (outcome: Outcome)
        ensures
            outcome == routed(self@, old(content)@, *path).0,
            final(content)@ == routed(self@, old(content)@, *path).1,
    {
        match path {
            ChapterPath::Missing => Outcome::NoPath,
            ChapterPath::NotText => Outcome::PathNotText,
            ChapterPath::Text(text) => match self.pad_chapter(content.as_str(), text.as_str()) {
                Some(body) => {
                    *content = body;
                    Outcome::Padded
                },
                None => Outcome::NoMatch,
            },
        }
    }

    /// Pads the chapter behind every handle of `records`, each on its own,
    /// and empties the list. The answer holds the outcomes in the order of
    /// the handles.
    pub fn pad_records<'a>(&self, records: &mut Vec<ChapterRecord<'a>>) -> (report: Vec<Outcome>)
        ensures
            final(records)@.len() == 0,
            report@.len() == old(records)@.len(),
            forall|k: int|
                0 <= k < old(records)@.len() ==> {
                    let record = #[trigger] old(records)@[k];
                    &&& report@[k] == routed(self@, (*record.content)@, *record.path).0
                    &&& (*final(record.content))@ == routed(
                        self@,
                        (*record.content)@,
                        *record.path,
                    ).1
                },
    {
        let ghost handles = records@;
        let m = records.len();
        let mut report: Vec<Outcome> = Vec::new();
        let mut j: usize = 0;
        while j < m
            invariant
                j <= m,
                report@.len() == j,
            decreases m - j,
        {
            report.push(Outcome::NoMatch);
            j += 1;
        }
        let mut i: usize = m;
        while i > 0
            invariant
                i <= m,
                handles.len() == m,
                report@.len() == m,
                records@ == handles.take(i as int),
                forall|k: int|
                    i <= k < m ==> {
                        let record = #[trigger] handles[k];
                        &&& report@[k] == routed(self@, (*record.content)@, *record.path).0
                        &&& (*final(record.content))@ == routed(
                            self@,
                            (*record.content)@,
                            *record.path,
                        ).1
                    },
            decreases i,
        {
            let record = records.pop().unwrap();
            i -= 1;
            assert(record == handles[i as int]);
            let outcome = self.pad_entry(record.content, record.path);
            report[i] = outcome;
            assert(records@ =~= handles.take(i as int));
        }
        report
    }

    /// Pads every chapter of the book, at every depth, and leaves the rest
    /// of it as it was: the walk hands out a handle on each chapter, and
    /// each chapter is then padded on its own. The answer holds one outcome
    /// for each chapter, in the order of a walk that takes a chapter before
    /// what is nested under it.
    pub fn pad_book(self, book: &mut Book) -> (report: Vec<Outcome>)
        ensures
            items_padded(self@, old(book).sections@, final(book).sections@),
            report@ == outcomes(self@, old(book).sections@),
    {
        let ghost before = book.sections@;
        let ghost after = final(book).sections@;
        let mut records: Vec<ChapterRecord> = Vec::new();
        all_chapter_records(book.sections.as_mut_slice(), &mut records);
        let ghost handles = records@;
        let report = self.pad_records(&mut records);
        proof {
            let met = chapter_records(before, before.len());
            assert forall|k: int| 0 <= k < met.len() implies (#[trigger] chapter_records(
                after,
                before.len(),
            )[k]).content@ == routed(self@, met[k].content@, met[k].path).1 by {
                let record = handles[0 + k];
                assert(*record.content == met[k].content);
            }
            lemma_bodies_give_padded(self@, before, after, before.len());
            assert forall|k: int| 0 <= k < met.len() implies report@[k] == outcome_of(self@)(
                met[k],
            ) by {
                let record = handles[0 + k];
                assert(*record.content == met[k].content);
            }
            assert(report@ =~= met.map_values(outcome_of(self@)));
        }
        report
    }
}

} // verus!
