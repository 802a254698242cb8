//! What holds of padding for every configuration, path and body.

use crate::book::{
    chapter_records, item_padded, item_same_shape, items_padded, routed, same_shape, BookItem,
    ChapterPath, Outcome, RecordView,
};
use crate::pattern::pattern_matches;
use crate::rules::{
    evaluate, joined, lemma_matching_push, matches_path, matching, padding_of, ConfigView,
    RuleView,
};
use vstd::prelude::*;
use vstd::seq_lib::lemma_flatten_concat;

verus! {

/// No rule of `rules` matches `path`.
pub open spec fn none_matches(rules: Seq<RuleView>, path: Seq<char>) -> bool {
    forall|i: int| 0 <= i < rules.len() ==> !pattern_matches(#[trigger] rules[i].pattern, path)
}

/// The rule at `at` is the only one of `rules` that matches `path`.
pub open spec fn only_match(rules: Seq<RuleView>, path: Seq<char>, at: int) -> bool {
    &&& 0 <= at < rules.len()
    &&& forall|i: int|
        0 <= i < rules.len() ==> (pattern_matches(#[trigger] rules[i].pattern, path) <==> i == at)
}

/// Rules of which none matches the path contribute nothing, and only they
/// do.
pub proof fn lemma_none_matching(rules: Seq<RuleView>, path: Seq<char>)
    ensures
        none_matches(rules, path) <==> matching(rules, path).len() == 0,
        none_matches(rules, path) ==> joined(matching(rules, path)) == Seq::<char>::empty(),
    decreases rules.len(),
{
    reveal(Seq::filter);
    if rules.len() == 0 {
        assert(matching(rules, path) =~= Seq::empty());
    } else {
        let init = rules.drop_last();
        lemma_none_matching(init, path);
        assert(rules =~= init.push(rules.last()));
        lemma_matching_push(init, rules.last(), path);
        if none_matches(rules, path) {
            assert(!pattern_matches(rules[rules.len() - 1].pattern, path));
            assert forall|i: int| 0 <= i < init.len() implies !pattern_matches(
                #[trigger] init[i].pattern,
                path,
            ) by {
                assert(init[i] == rules[i]);
            }
        }
        if matching(rules, path).len() == 0 {
            assert forall|i: int| 0 <= i < rules.len() implies !pattern_matches(
                #[trigger] rules[i].pattern,
                path,
            ) by {
                if i < init.len() {
                    assert(init[i] == rules[i]);
                }
            }
        }
    }
    if none_matches(rules, path) {
        assert(matching(rules, path) =~= Seq::empty());
        assert(joined(Seq::<RuleView>::empty()) =~= Seq::empty());
    }
}

/// Where exactly one rule matches the path, what the rules contribute is
/// that rule's padding.
pub proof fn lemma_single_matching(rules: Seq<RuleView>, path: Seq<char>, at: int)
    requires
        only_match(rules, path, at),
    ensures
        matching(rules, path) == seq![rules[at]],
        joined(matching(rules, path)) == rules[at].padding,
    decreases rules.len(),
{
    let init = rules.drop_last();
    let last = rules.last();
    assert(rules =~= init.push(last));
    lemma_matching_push(init, last, path);
    assert forall|i: int| 0 <= i < init.len() implies (pattern_matches(
        #[trigger] init[i].pattern,
        path,
    ) <==> i == at) by {
        assert(init[i] == rules[i]);
    }
    if at == rules.len() - 1 {
        lemma_none_matching(init, path);
        assert(pattern_matches(rules[at].pattern, path));
        assert(matching(init, path) =~= Seq::empty());
        assert(matching(rules, path) =~= seq![rules[at]]);
    } else {
        assert(!pattern_matches(rules[rules.len() - 1].pattern, path));
        assert(init[at] == rules[at]);
        lemma_single_matching(init, path, at);
    }
    let paddings = seq![rules[at]].map_values(padding_of());
    assert(paddings =~= seq![rules[at].padding]);
    paddings.lemma_flatten_singleton();
}

/// A chapter whose path matches no rule is not padded, and the pass leaves
/// its body as it is.
pub proof fn lemma_no_match_no_change(config: ConfigView, body: Seq<char>, path: String)
    requires
        none_matches(config.headers, path@),
        none_matches(config.footers, path@),
    ensures
        evaluate(config, body, path@) is None,
        routed(config, body, ChapterPath::Text(path)) == (Outcome::NoMatch, body),
{
    lemma_none_matching(config.headers, path@);
    lemma_none_matching(config.footers, path@);
}

/// A chapter whose path matches one header rule and nothing else gets that
/// rule's padding put before its body, with nothing in between.
pub proof fn lemma_single_header(config: ConfigView, body: Seq<char>, path: Seq<char>, at: int)
    requires
        only_match(config.headers, path, at),
        none_matches(config.footers, path),
    ensures
        evaluate(config, body, path) == Some(config.headers[at].padding + body),
{
    lemma_single_matching(config.headers, path, at);
    lemma_none_matching(config.footers, path);
    assert(config.headers[at].padding + body + Seq::<char>::empty() =~= config.headers[at].padding
        + body);
}

/// A chapter whose path matches one footer rule and nothing else gets that
/// rule's padding put after its body, with nothing in between.
pub proof fn lemma_single_footer(config: ConfigView, body: Seq<char>, path: Seq<char>, at: int)
    requires
        none_matches(config.headers, path),
        only_match(config.footers, path, at),
    ensures
        evaluate(config, body, path) == Some(body + config.footers[at].padding),
{
    lemma_none_matching(config.headers, path);
    lemma_single_matching(config.footers, path, at);
    assert(Seq::<char>::empty() + body + config.footers[at].padding =~= body
        + config.footers[at].padding);
}

/// Paddings come in the order of the rules: what a list of rules
/// contributes is what its front part contributes, followed by what its
/// back part contributes, wherever the list is cut.
pub proof fn lemma_padding_follows_rule_order(
    front: Seq<RuleView>,
    back: Seq<RuleView>,
    path: Seq<char>,
)
    ensures
        matching(front + back, path) == matching(front, path) + matching(back, path),
        joined(matching(front + back, path)) == joined(matching(front, path)) + joined(
            matching(back, path),
        ),
{
    Seq::filter_distributes_over_add(front, back, matches_path(path));
    let x = matching(front, path);
    let y = matching(back, path);
    assert((x + y).map_values(padding_of()) =~= x.map_values(padding_of()) + y.map_values(
        padding_of(),
    ));
    lemma_flatten_concat(x.map_values(padding_of()), y.map_values(padding_of()));
}

/// Every rule that matches contributes, and only those do: the rules that
/// contribute all match the path, and a rule that matches is among them.
pub proof fn lemma_every_match_contributes(rules: Seq<RuleView>, path: Seq<char>)
    ensures
        forall|i: int|
            0 <= i < matching(rules, path).len() ==> pattern_matches(
                (#[trigger] matching(rules, path)[i]).pattern,
                path,
            ),
        forall|i: int|
            0 <= i < rules.len() && pattern_matches(rules[i].pattern, path) ==> matching(
                rules,
                path,
            ).contains(#[trigger] rules[i]),
{
    rules.filter_lemma(matches_path(path));
    assert forall|i: int|
        0 <= i < rules.len() && pattern_matches(rules[i].pattern, path) implies matching(
        rules,
        path,
    ).contains(#[trigger] rules[i]) by {
        assert(matches_path(path)(rules[i]));
    }
}

/// Padding is not idempotent: a body that was padded is padded again in
/// full, so with any padding that is not empty the second result differs
/// from the first.
pub proof fn lemma_padding_repeats(config: ConfigView, body: Seq<char>, path: Seq<char>)
    requires
        evaluate(config, body, path) is Some,
    ensures
        ({
            let once = evaluate(config, body, path)->Some_0;
            let heads = joined(matching(config.headers, path));
            let feet = joined(matching(config.footers, path));
            &&& evaluate(config, once, path) == Some(heads + once + feet)
            &&& heads.len() + feet.len() > 0 ==> evaluate(config, once, path) != Some(once)
        }),
{
    let once = evaluate(config, body, path)->Some_0;
    let heads = joined(matching(config.headers, path));
    let feet = joined(matching(config.footers, path));
    assert((heads + once + feet).len() == heads.len() + once.len() + feet.len());
}

/// A configuration without rules pads nothing: whatever the chapter, the
/// pass leaves its body as it is.
pub proof fn lemma_no_rules_no_change(config: ConfigView, body: Seq<char>, path: ChapterPath)
    requires
        config.headers.len() == 0,
        config.footers.len() == 0,
    ensures
        forall|text: Seq<char>| evaluate(config, body, text) is None,
        routed(config, body, path).0 != Outcome::Padded,
        routed(config, body, path).1 == body,
{
    assert forall|text: Seq<char>| evaluate(config, body, text) is None by {
        lemma_none_matching(config.headers, text);
        lemma_none_matching(config.footers, text);
    }
}

/// A chapter without a path, or with a path that is not text, is left as
/// it is, whatever the rules.
pub proof fn lemma_no_path_no_change(config: ConfigView, body: Seq<char>)
    ensures
        routed(config, body, ChapterPath::Missing) == (Outcome::NoPath, body),
        routed(config, body, ChapterPath::NotText) == (Outcome::PathNotText, body),
{
}

/// Under a configuration without rules the pass changes no entry: an
/// entry counts as its own padded form.
pub proof fn lemma_no_rules_keeps_item(config: ConfigView, item: BookItem)
    requires
        config.headers.len() == 0,
        config.footers.len() == 0,
    ensures
        item_padded(config, item, item),
    decreases item,
{
    match item {
        BookItem::Chapter(ch) => {
            lemma_no_rules_no_change(config, ch.content@, ch.path);
            assert forall|i: int| 0 <= i < ch.sub_items.len() implies item_padded(
                config,
                #[trigger] ch.sub_items[i],
                ch.sub_items[i],
            ) by {
                lemma_no_rules_keeps_item(config, ch.sub_items[i]);
            }
        },
        _ => {},
    }
}

/// Under a configuration without rules the pass changes no book.
pub proof fn lemma_no_rules_keeps_items(config: ConfigView, items: Seq<BookItem>)
    requires
        config.headers.len() == 0,
        config.footers.len() == 0,
    ensures
        items_padded(config, items, items),
{
    assert forall|i: int| 0 <= i < items.len() implies item_padded(
        config,
        #[trigger] items[i],
        items[i],
    ) by {
        lemma_no_rules_keeps_item(config, items[i]);
    }
}

/// `after` is the chapter `before` with its body padded: the same name,
/// the same path, and the body that the rules give it.
pub open spec fn record_padded(
    config: ConfigView,
    before: RecordView,
    after: RecordView,
) -> bool {
    &&& after.name == before.name
    &&& after.path == before.path
    &&& after.content@ == routed(config, before.content@, before.path).1
}

/// `after` is `before` with every chapter's body padded, one by one.
pub open spec fn records_padded(
    config: ConfigView,
    before: Seq<RecordView>,
    after: Seq<RecordView>,
) -> bool {
    &&& after.len() == before.len()
    &&& forall|k: int|
        0 <= k < before.len() ==> record_padded(config, #[trigger] before[k], after[k])
}

/// The pass works chapter by chapter: a walk of the padded book meets the
/// same chapters in the same order as a walk of the book before, and each
/// has the body that the rules give to its own body and path, whatever else
/// the book holds.
pub proof fn lemma_pass_is_per_chapter(
    config: ConfigView,
    before: Seq<BookItem>,
    after: Seq<BookItem>,
    n: nat,
)
    requires
        items_padded(config, before, after),
        n <= before.len(),
    ensures
        records_padded(config, chapter_records(before, n), chapter_records(after, n)),
    decreases before, n,
{
    if n > 0 {
        lemma_pass_is_per_chapter(config, before, after, (n - 1) as nat);
        let front_b = chapter_records(before, (n - 1) as nat);
        let front_a = chapter_records(after, (n - 1) as nat);
        assert(item_padded(config, before[n - 1], after[n - 1]));
        match before[n - 1] {
            BookItem::Chapter(b) => {
                let a = after[n - 1]->Chapter_0;
                assert forall|i: int| 0 <= i < b.sub_items@.len() implies item_padded(
                    config,
                    #[trigger] b.sub_items@[i],
                    a.sub_items@[i],
                ) by {
                    assert(item_padded(config, b.sub_items[i], a.sub_items[i]));
                }
                lemma_pass_is_per_chapter(config, b.sub_items@, a.sub_items@, b.sub_items@.len());
                let under_b = chapter_records(b.sub_items@, b.sub_items@.len());
                let under_a = chapter_records(a.sub_items@, a.sub_items@.len());
                let own_b = RecordView { name: b.name, content: b.content, path: b.path };
                let own_a = RecordView { name: a.name, content: a.content, path: a.path };
                let all_b = front_b + (seq![own_b] + under_b);
                let all_a = front_a + (seq![own_a] + under_a);
                assert(chapter_records(before, n) == all_b);
                assert(chapter_records(after, n) == all_a);
                assert forall|k: int| 0 <= k < all_b.len() implies record_padded(
                    config,
                    #[trigger] all_b[k],
                    all_a[k],
                ) by {
                    if k < front_b.len() {
                        assert(record_padded(config, front_b[k], front_a[k]));
                    } else if k == front_b.len() {
                        assert(all_b[k] == own_b && all_a[k] == own_a);
                    } else {
                        let j = k - front_b.len() - 1;
                        assert(all_b[k] == under_b[j] && all_a[k] == under_a[j]);
                        assert(record_padded(config, under_b[j], under_a[j]));
                    }
                }
            },
            _ => {
                assert(chapter_records(before, n) =~= front_b);
                assert(chapter_records(after, n) =~= front_a);
            },
        }
    }
}

/// Two books of the same shape hold the same number of chapters.
pub proof fn lemma_same_shape_same_count(before: Seq<BookItem>, after: Seq<BookItem>, n: nat)
    requires
        same_shape(before, after),
        n <= before.len(),
    ensures
        chapter_records(before, n).len() == chapter_records(after, n).len(),
    decreases before, n,
{
    if n > 0 {
        lemma_same_shape_same_count(before, after, (n - 1) as nat);
        assert(item_same_shape(before[n - 1], after[n - 1]));
        match before[n - 1] {
            BookItem::Chapter(b) => {
                let a = after[n - 1]->Chapter_0;
                assert forall|i: int| 0 <= i < b.sub_items@.len() implies item_same_shape(
                    #[trigger] b.sub_items@[i],
                    a.sub_items@[i],
                ) by {
                    assert(item_same_shape(b.sub_items[i], a.sub_items[i]));
                }
                lemma_same_shape_same_count(b.sub_items@, a.sub_items@, b.sub_items@.len());
            },
            _ => {},
        }
    }
}

/// A book of the same shape, in which every chapter that the walk meets
/// holds the body that the rules give it, is the padded book.
pub proof fn lemma_bodies_give_padded(
    config: ConfigView,
    before: Seq<BookItem>,
    after: Seq<BookItem>,
    n: nat,
)
    requires
        same_shape(before, after),
        n <= before.len(),
        forall|k: int|
            0 <= k < chapter_records(before, n).len() ==> (#[trigger] chapter_records(
                after,
                n,
            )[k]).content@ == routed(
                config,
                chapter_records(before, n)[k].content@,
                chapter_records(before, n)[k].path,
            ).1,
    ensures
        forall|i: int| 0 <= i < n ==> item_padded(config, #[trigger] before[i], after[i]),
    decreases before, n,
{
    if n > 0 {
        let wb1 = chapter_records(before, (n - 1) as nat);
        let wa1 = chapter_records(after, (n - 1) as nat);
        let wb = chapter_records(before, n);
        let wa = chapter_records(after, n);
        lemma_same_shape_same_count(before, after, (n - 1) as nat);
        lemma_same_shape_same_count(before, after, n);
        assert forall|k: int| 0 <= k < wb1.len() implies (#[trigger] wa1[k]).content@ == routed(
            config,
            wb1[k].content@,
            wb1[k].path,
        ).1 by {
            assert(wb[k] == wb1[k]);
            assert(wa[k] == wa1[k]);
        }
        lemma_bodies_give_padded(config, before, after, (n - 1) as nat);
        assert(item_same_shape(before[n - 1], after[n - 1]));
        match before[n - 1] {
            BookItem::Chapter(b) => {
                let a = after[n - 1]->Chapter_0;
                assert forall|i: int| 0 <= i < b.sub_items@.len() implies item_same_shape(
                    #[trigger] b.sub_items@[i],
                    a.sub_items@[i],
                ) by {
                    assert(item_same_shape(b.sub_items[i], a.sub_items[i]));
                }
                let m = b.sub_items@.len();
                let sb = chapter_records(b.sub_items@, m);
                let sa = chapter_records(a.sub_items@, m);
                lemma_same_shape_same_count(b.sub_items@, a.sub_items@, m);
                let own_b = RecordView { name: b.name, content: b.content, path: b.path };
                let own_a = RecordView { name: a.name, content: a.content, path: a.path };
                assert(wb == wb1 + (seq![own_b] + sb));
                assert(wa == wa1 + (seq![own_a] + sa));
                assert(wb[wb1.len() as int] == own_b);
                assert(wa[wb1.len() as int] == own_a);
                assert forall|k: int| 0 <= k < sb.len() implies (#[trigger] sa[k]).content@
                    == routed(config, sb[k].content@, sb[k].path).1 by {
                    let at = wb1.len() + 1 + k;
                    assert(wb[at] == sb[k]);
                    assert(wa[at] == sa[k]);
                }
                lemma_bodies_give_padded(config, b.sub_items@, a.sub_items@, m);
                assert forall|i: int| 0 <= i < b.sub_items.len() implies item_padded(
                    config,
                    #[trigger] b.sub_items[i],
                    a.sub_items[i],
                ) by {
                    assert(item_padded(config, b.sub_items@[i], a.sub_items@[i]));
                }
                assert(item_padded(config, before[n - 1], after[n - 1]));
            },
            _ => {},
        }
    }
}

} // verus!
