//! Text accumulation. While a component's resolved detection is `Found`,
//! each frame's OCR guesses are merged into per-slot tallies; when the span
//! closes, each slot resolves to one text:
//!
//! - an exact (`Found`) observation always wins: the distinct exact texts
//!   are joined, whatever the `Possible` tallies say;
//! - otherwise the `Possible` candidates whose accumulated weight reaches a
//!   tenth of the total weight are kept (all of them, if none reaches it),
//!   sorted by descending weight, marked as uncertain, and joined.
//!
//! Two or more candidates join as `{a|b}`; none join as `{}`.

use vstd::prelude::*;

use crate::rat::Rational;
use crate::time::FramePosition;

verus! {

/// An OCR confidence: a percentage, an exact rational out of one hundred.
#[derive(Debug, Clone, Copy, PartialEq, Eq, Structural)]
pub struct Confidence {
    percent: i32,
}

impl Confidence {
    pub closed spec fn percent_spec(self) -> int {
        self.percent as int
    }

    pub open spec fn wf(self) -> bool {
        0 <= self.percent_spec() <= 100
    }

    pub fn new(value: i32) -> (r: Confidence)
        requires
            0 <= value <= 100,
        ensures
            r.percent_spec() == value,
            r.wf(),
    {
        Confidence { percent: value }
    }

    pub fn percent(&self) -> (r: i32)
        ensures
            r == self.percent_spec(),
    {
        self.percent
    }

    /// The confidence as an exact rational in `[0, 1]`.
    pub fn as_ratio(&self) -> (r: Rational)
        ensures
            r.wf(),
            r.num == self.percent_spec(),
            r.den == 100,
    {
        Rational { num: self.percent as i64, den: 100 }
    }
}

/// One OCR guess for one slot of one frame: the text, exact (`Found`) or
/// uncertain (`Possible`), with its confidence.
#[derive(Debug, Clone)]
pub enum Recognition {
    Found(String, Confidence),
    Possible(String, Confidence),
}

impl Recognition {
    pub open spec fn wf(self) -> bool {
        match self {
            Recognition::Found(_, c) => c.wf(),
            Recognition::Possible(_, c) => c.wf(),
        }
    }
}

impl Recognition {
    /// The same recognition, exactness and confidence kept, with its text
    /// passed through `f`.
    pub fn map_text<F: Fn(String) -> String>(self, f: F) -> (r: Recognition)
        requires
            (self matches Recognition::Found(t, _) ==> f.requires((t,))),
            (self matches Recognition::Possible(t, _) ==> f.requires((t,))),
        ensures
            (self matches Recognition::Found(t, conf) ==> r matches Recognition::Found(t2, conf2)
                && conf2 == conf && f.ensures((t,), t2)),
            (self matches Recognition::Possible(t, conf) ==> r matches Recognition::Possible(
                t2,
                conf2,
            ) && conf2 == conf && f.ensures((t,), t2)),
    {
        match self {
            Recognition::Found(text, conf) => Recognition::Found(f(text), conf),
            Recognition::Possible(text, conf) => Recognition::Possible(f(text), conf),
        }
    }
}

/// The OCR guesses of one frame for one component, one per slot.
#[derive(Debug, Clone)]
pub struct ExtractedTexts {
    pub result: Vec<Recognition>,
}

/// The texts of a sequence of weighted candidates.
pub open spec fn texts_of(s: Seq<(Seq<char>, int)>) -> Seq<Seq<char>> {
    s.map_values(|e: (Seq<char>, int)| e.0)
}

/// The uncertainty mark put before a candidate that only `Possible`
/// observations support.
pub open spec fn uncertain(t: Seq<char>) -> Seq<char> {
    seq!['?', '?'] + t
}

/// Joining distinct candidates: none give an empty brace pair, one gives
/// itself, two or more give the candidates separated by pipes inside
/// braces.
pub open spec fn join_texts_spec(s: Seq<Seq<char>>) -> Seq<char> {
    if s.len() == 0 {
        seq!['{', '}']
    } else if s.len() == 1 {
        s[0]
    } else {
        seq!['{'] + s[0] + piped(s.drop_first()) + seq!['}']
    }
}

/// `|a|b|c`: the tail of a multi-candidate join.
pub open spec fn piped(s: Seq<Seq<char>>) -> Seq<char>
    decreases s.len(),
{
    if s.len() == 0 {
        Seq::empty()
    } else {
        piped(s.drop_last()) + seq!['|'] + s.last()
    }
}

/// The per-component slot texts joined by single spaces.
pub open spec fn join_space_spec(s: Seq<Seq<char>>) -> Seq<char>
    decreases s.len(),
{
    if s.len() == 0 {
        Seq::empty()
    } else if s.len() == 1 {
        s[0]
    } else {
        join_space_spec(s.drop_last()) + seq![' '] + s.last()
    }
}

/// Where a weighted candidate lands when pushed into a list already sorted
/// by descending weight: after every entry at least as heavy (a stable
/// insertion).
pub open spec fn insert_desc(s: Seq<(Seq<char>, int)>, e: (Seq<char>, int)) -> Seq<
    (Seq<char>, int),
>
    decreases s.len(),
{
    if s.len() == 0 {
        seq![e]
    } else if s[0].1 >= e.1 {
        seq![s[0]] + insert_desc(s.drop_first(), e)
    } else {
        seq![e] + s
    }
}

/// Stable sort by descending weight: candidates of equal weight keep their
/// relative order.
pub open spec fn sort_desc_spec(s: Seq<(Seq<char>, int)>) -> Seq<(Seq<char>, int)>
    decreases s.len(),
{
    if s.len() == 0 {
        Seq::empty()
    } else {
        insert_desc(sort_desc_spec(s.drop_last()), s.last())
    }
}

/// How one slot resolves once its span closes, from the exact texts seen
/// and the weighted uncertain candidates (weights in percent units).
pub open spec fn resolve_spec(found: Seq<Seq<char>>, possible: Seq<(Seq<char>, int)>) -> Seq<
    char,
> {
    if found.len() > 0 {
        join_texts_spec(found)
    } else {
        let total = weight_total(possible);
        let sorted = sort_desc_spec(
            possible.map_values(|e: (Seq<char>, int)| (uncertain(e.0), e.1)),
        );
        let kept = sorted.filter(|e: (Seq<char>, int)| 10 * e.1 >= total);
        if kept.len() == 0 {
            join_texts_spec(texts_of(sorted))
        } else {
            join_texts_spec(texts_of(kept))
        }
    }
}

/// The total weight of all candidates.
pub open spec fn weight_total(s: Seq<(Seq<char>, int)>) -> int
    decreases s.len(),
{
    if s.len() == 0 {
        0
    } else {
        weight_total(s.drop_last()) + s.last().1
    }
}

/// The first position whose text reads `t`, or -1.
pub open spec fn find_text(s: Seq<Seq<char>>, t: Seq<char>) -> int
    decreases s.len(),
{
    if s.len() == 0 {
        -1
    } else if s[0] == t {
        0
    } else {
        let r = find_text(s.drop_first(), t);
        if r < 0 {
            -1
        } else {
            r + 1
        }
    }
}

/// The views of a weighted candidate list.
pub open spec fn cand_views(s: Seq<(String, u64)>) -> Seq<(Seq<char>, int)> {
    s.map_values(|e: (String, u64)| (e.0@, e.1 as int))
}

/// The views of a text list.
pub open spec fn text_views(s: Seq<String>) -> Seq<Seq<char>> {
    s.map_values(|e: String| e@)
}

proof fn lemma_find_text_props(s: Seq<Seq<char>>, t: Seq<char>)
    ensures
        find_text(s, t) >= 0 <==> (exists|i: int| 0 <= i < s.len() && s[i] == t),
        find_text(s, t) >= 0 ==> 0 <= find_text(s, t) < s.len() && s[find_text(s, t)] == t,
    decreases s.len(),
{
    if s.len() > 0 && s[0] != t {
        lemma_find_text_props(s.drop_first(), t);
        if exists|i: int| 0 <= i < s.len() && s[i] == t {
            let i = choose|i: int| 0 <= i < s.len() && s[i] == t;
            assert(s.drop_first()[i - 1] == s[i]);
        }
    }
}

proof fn lemma_weight_total_nonneg(s: Seq<(Seq<char>, int)>)
    requires
        forall|j: int| 0 <= j < s.len() ==> (#[trigger] s[j]).1 >= 0,
    ensures
        weight_total(s) >= 0,
    decreases s.len(),
{
    if s.len() > 0 {
        assert forall|j: int| 0 <= j < s.drop_last().len() implies (#[trigger] s.drop_last()[j]).1 >= 0 by {
            assert(s.drop_last()[j] == s[j]);
        }
        lemma_weight_total_nonneg(s.drop_last());
        assert(s[s.len() - 1].1 >= 0);
    }
}

proof fn lemma_weight_total_take(s: Seq<(Seq<char>, int)>, i: int)
    requires
        0 <= i <= s.len(),
        forall|j: int| 0 <= j < s.len() ==> (#[trigger] s[j]).1 >= 0,
    ensures
        0 <= weight_total(s.take(i)) <= weight_total(s),
    decreases s.len() - i,
{
    assert forall|j: int| 0 <= j < s.take(i).len() implies (#[trigger] s.take(i)[j]).1 >= 0 by {
        assert(s.take(i)[j] == s[j]);
    }
    lemma_weight_total_nonneg(s.take(i));
    if i == s.len() {
        assert(s.take(i) =~= s);
    } else {
        lemma_weight_total_take(s, i + 1);
        assert(s.take(i + 1).drop_last() =~= s.take(i));
        assert(s.take(i + 1).last() == s[i]);
        assert(s[i].1 >= 0);
    }
}

proof fn lemma_weight_total_update(s: Seq<(Seq<char>, int)>, i: int, e: (Seq<char>, int))
    requires
        0 <= i < s.len(),
    ensures
        weight_total(s.update(i, e)) == weight_total(s) - s[i].1 + e.1,
    decreases s.len(),
{
    if i == s.len() - 1 {
        assert(s.update(i, e).drop_last() =~= s.drop_last());
        assert(s.update(i, e).last() == e);
    } else {
        lemma_weight_total_update(s.drop_last(), i, e);
        assert(s.update(i, e).drop_last() =~= s.drop_last().update(i, e));
        assert(s.update(i, e).last() == s.last());
    }
}

proof fn lemma_insert_desc_at(s: Seq<(Seq<char>, int)>, e: (Seq<char>, int), p: int)
    requires
        0 <= p <= s.len(),
        forall|i: int| 0 <= i < p ==> (#[trigger] s[i]).1 >= e.1,
        p < s.len() ==> s[p].1 < e.1,
    ensures
        insert_desc(s, e) =~= s.take(p) + seq![e] + s.skip(p),
    decreases s.len(),
{
    if p == 0 {
        if s.len() == 0 {
            assert(insert_desc(s, e) =~= seq![e]);
        }
    } else {
        assert(s[0].1 >= e.1);
        lemma_insert_desc_at(s.drop_first(), e, p - 1);
        assert(insert_desc(s, e) == seq![s[0]] + insert_desc(s.drop_first(), e));
        assert(s.drop_first().take(p - 1) =~= s.subrange(1, p));
        assert(s.drop_first().skip(p - 1) =~= s.skip(p));
        assert(seq![s[0]] + (s.subrange(1, p) + seq![e] + s.skip(p)) =~= s.take(p) + seq![e]
            + s.skip(p));
    }
}

/// Joins candidates: `{}` for none, the candidate itself for one, and
/// `{a|b|c}` for more.
pub fn join_texts(texts: &Vec<String>) -> (r: String)
    ensures
        r@ == join_texts_spec(text_views(texts@)),
{
    proof {
        reveal_strlit("{}");
        reveal_strlit("{");
        reveal_strlit("|");
        reveal_strlit("}");
    }
    if texts.len() == 0 {
        return "{}".to_owned();
    }
    if texts.len() == 1 {
        return texts[0].clone();
    }
    let mut r = "{".to_owned();
    r.append(texts[0].as_str());
    let ghost views = text_views(texts@);
    let mut i: usize = 1;
    while i < texts.len()
        invariant
            1 <= i <= texts@.len(),
            views == text_views(texts@),
            2 <= views.len(),
            r@ =~= seq!['{'] + views[0] + piped(views.take(i as int).drop_first()),
        decreases texts@.len() - i,
    {
        proof {
            reveal_strlit("|");
        }
        r.append("|");
        r.append(texts[i].as_str());
        proof {
            let pre = views.take(i as int).drop_first();
            let post = views.take(i + 1).drop_first();
            assert(post.drop_last() =~= pre);
            assert(post.last() == views[i as int]);
            assert(piped(post) == piped(pre) + seq!['|'] + views[i as int]);
        }
        i = i + 1;
    }
    r.append("}");
    proof {
        assert(views.take(views.len() as int) =~= views);
    }
    r
}

/// The slot texts joined by single spaces.
pub fn join_with_spaces(texts: &Vec<String>) -> (r: String)
    ensures
        r@ == join_space_spec(text_views(texts@)),
{
    proof {
        reveal_strlit("");
        reveal_strlit(" ");
    }
    if texts.len() == 0 {
        return "".to_owned();
    }
    let mut r = texts[0].clone();
    let ghost views = text_views(texts@);
    let mut i: usize = 1;
    while i < texts.len()
        invariant
            1 <= i <= texts@.len(),
            views == text_views(texts@),
            1 <= views.len(),
            r@ =~= join_space_spec(views.take(i as int)),
        decreases texts@.len() - i,
    {
        proof {
            reveal_strlit(" ");
        }
        r.append(" ");
        r.append(texts[i].as_str());
        proof {
            assert(views.take(i + 1).drop_last() =~= views.take(i as int));
            assert(views.take(i + 1).last() == views[i as int]);
        }
        i = i + 1;
    }
    proof {
        assert(views.take(views.len() as int) =~= views);
    }
    r
}

/// Sorts weighted candidates by descending weight; candidates of equal
/// weight keep their relative order.
fn sort_candidates(v: Vec<(String, u64)>) -> (r: Vec<(String, u64)>)
    ensures
        cand_views(r@) =~= sort_desc_spec(cand_views(v@)),
{
    let ghost views = cand_views(v@);
    let mut pending = v;
    let mut r: Vec<(String, u64)> = Vec::new();
    let ghost k: int = 0;
    proof {
        assert(cand_views(pending@) =~= views);
        assert(cand_views(r@) =~= sort_desc_spec(views.take(0)));
    }
    while pending.len() > 0
        invariant
            0 <= k <= views.len(),
            views.len() == k + pending@.len(),
            cand_views(pending@) =~= views.skip(k),
            cand_views(r@) =~= sort_desc_spec(views.take(k)),
        decreases pending@.len(),
    {
        proof {
            assert(cand_views(pending@)[0] == views[k]);
        }
        let e = pending.remove(0);
        proof {
            assert(cand_views(pending@.insert(0, e)).drop_first() =~= cand_views(pending@));
        }
        let ghost before = cand_views(r@);
        // scan for the first strictly lighter entry
        let mut p: usize = 0;
        while p < r.len() && r[p].1 >= e.1
            invariant
                0 <= p <= r@.len(),
                forall|i: int| 0 <= i < p ==> (#[trigger] r@[i]).1 >= e.1,
            decreases r@.len() - p,
        {
            p = p + 1;
        }
        proof {
            assert forall|i: int| 0 <= i < p implies (#[trigger] before[i]).1 >= e.1 as int by {
                assert(before[i] == (r@[i].0@, r@[i].1 as int));
            }
            if p < r@.len() {
                assert(before[p as int] == (r@[p as int].0@, r@[p as int].1 as int));
            }
            lemma_insert_desc_at(before, (e.0@, e.1 as int), p as int);
        }
        r.insert(p, e);
        proof {
            assert(cand_views(r@) =~= before.take(p as int) + seq![(e.0@, e.1 as int)]
                + before.skip(p as int));
            assert(views.take(k + 1).drop_last() =~= views.take(k));
            assert(views.take(k + 1).last() == views[k]);
            assert(views[k] == (e.0@, e.1 as int));
            assert(cand_views(r@) =~= insert_desc(sort_desc_spec(views.take(k)), views[k]));
            k = k + 1;
            assert(views.skip(k - 1).drop_first() =~= views.skip(k));
        }
    }
    proof {
        assert(views.take(views.len() as int) =~= views);
    }
    r
}


proof fn lemma_text_views_push(s: Seq<String>, e: String)
    ensures
        text_views(s.push(e)) =~= text_views(s).push(e@),
{
}

proof fn lemma_cand_views_push(s: Seq<(String, u64)>, e: (String, u64))
    ensures
        cand_views(s.push(e)) =~= cand_views(s).push((e.0@, e.1 as int)),
{
}

proof fn lemma_texts_of_push(s: Seq<(Seq<char>, int)>, e: (Seq<char>, int))
    ensures
        texts_of(s.push(e)) =~= texts_of(s).push(e.0),
{
}

proof fn lemma_find_text_at(s: Seq<Seq<char>>, t: Seq<char>, i: int)
    requires
        0 <= i < s.len(),
        s[i] == t,
        forall|k: int| 0 <= k < i ==> s[k] != t,
    ensures
        find_text(s, t) == i,
    decreases s.len(),
{
    if i > 0 {
        assert forall|k: int| 0 <= k < i - 1 implies s.drop_first()[k] != t by {
            assert(s.drop_first()[k] == s[k + 1]);
        }
        assert(s.drop_first()[i - 1] == s[i]);
        lemma_find_text_at(s.drop_first(), t, i - 1);
    }
}

proof fn lemma_weight_le_total(s: Seq<(Seq<char>, int)>, i: int)
    requires
        0 <= i < s.len(),
        forall|j: int| 0 <= j < s.len() ==> (#[trigger] s[j]).1 >= 0,
    ensures
        s[i].1 <= weight_total(s),
    decreases s.len(),
{
    assert forall|j: int| 0 <= j < s.drop_last().len() implies (#[trigger] s.drop_last()[j]).1
        >= 0 by {
        assert(s.drop_last()[j] == s[j]);
    }
    if i == s.len() - 1 {
        lemma_weight_total_nonneg(s.drop_last());
    } else {
        lemma_weight_le_total(s.drop_last(), i);
        assert(s[s.len() - 1].1 >= 0);
    }
}

/// How many frames one slot has absorbed: the cap that keeps the weight
/// arithmetic within machine range (about 10^15 frames).
pub const SLOT_INSERT_CAP: u64 = 0x0004_0000_0000_0000;

/// The tally of one slot of one component while a span is open: the exact
/// texts seen, and each uncertain candidate with its accumulated weight (in
/// percent units, one `Possible` observation adding its confidence).
pub struct InnerAccumulator {
    found: Vec<String>,
    possible: Vec<(String, u64)>,
    count: Ghost<nat>,
}

impl InnerAccumulator {
    /// The distinct exact texts, in first-seen order.
    pub closed spec fn found_texts(self) -> Seq<Seq<char>> {
        text_views(self.found@)
    }

    /// The uncertain candidates and their weights, in first-seen order.
    pub closed spec fn poss_cands(self) -> Seq<(Seq<char>, int)> {
        cand_views(self.possible@)
    }

    /// How many observations this slot has absorbed since its last reset.
    pub closed spec fn count_spec(self) -> nat {
        self.count@
    }

    pub closed spec fn wf(self) -> bool {
        &&& forall|i: int, j: int|
            0 <= i < j < self.found_texts().len() ==> #[trigger] self.found_texts()[i]
                != #[trigger] self.found_texts()[j]
        &&& forall|i: int, j: int|
            0 <= i < j < self.poss_cands().len() ==> (#[trigger] self.poss_cands()[i]).0 != (
            #[trigger] self.poss_cands()[j]).0
        &&& forall|i: int| 0 <= i < self.poss_cands().len() ==> (#[trigger] self.poss_cands()[i]).1 >= 0
        &&& weight_total(self.poss_cands()) <= 100 * self.count_spec()
        &&& self.count_spec() <= SLOT_INSERT_CAP
    }

    /// What this slot resolves to if its span closes now.
    pub open spec fn resolved(self) -> Seq<char> {
        resolve_spec(self.found_texts(), self.poss_cands())
    }

    pub fn new() -> (r: InnerAccumulator)
        ensures
            r.wf(),
            r.found_texts() =~= Seq::<Seq<char>>::empty(),
            r.poss_cands() =~= Seq::<(Seq<char>, int)>::empty(),
            r.count_spec() == 0,
    {
        InnerAccumulator { found: Vec::new(), possible: Vec::new(), count: Ghost(0) }
    }

    /// Absorbs one observation: an exact text joins the set of exact texts
    /// (deduplicating); an uncertain one adds its confidence to its text's
    /// weight.
    pub fn insert(&mut self, result: &Recognition)
        requires
            old(self).wf(),
            result.wf(),
            old(self).count_spec() < SLOT_INSERT_CAP,
        ensures
            final(self).wf(),
            final(self).count_spec() == old(self).count_spec() + 1,
            (result matches Recognition::Found(text, _) ==> final(self).poss_cands() == old(
                self,
            ).poss_cands() && final(self).found_texts() =~= (if find_text(
                old(self).found_texts(),
                text@,
            ) >= 0 {
                old(self).found_texts()
            } else {
                old(self).found_texts().push(text@)
            })),
            (result matches Recognition::Possible(text, conf) ==> final(self).found_texts() == old(
                self,
            ).found_texts() && ({
                let f = find_text(texts_of(old(self).poss_cands()), text@);
                if f >= 0 {
                    final(self).poss_cands() =~= old(self).poss_cands().update(
                        f,
                        (old(self).poss_cands()[f].0, old(self).poss_cands()[f].1
                            + conf.percent_spec()),
                    )
                } else {
                    final(self).poss_cands() =~= old(self).poss_cands().push(
                        (text@, conf.percent_spec()),
                    )
                }
            })),
    {
        match result {
            Recognition::Found(text, _) => self.insert_found(text.clone()),
            Recognition::Possible(text, conf) => self.insert_possible(text.clone(), *conf),
        }
    }

    fn insert_found(&mut self, text: String)
        requires
            old(self).wf(),
            old(self).count_spec() < SLOT_INSERT_CAP,
        ensures
            final(self).wf(),
            final(self).count_spec() == old(self).count_spec() + 1,
            final(self).poss_cands() == old(self).poss_cands(),
            final(self).found_texts() =~= (if find_text(old(self).found_texts(), text@) >= 0 {
                old(self).found_texts()
            } else {
                old(self).found_texts().push(text@)
            }),
    {
        proof {
            self.count@ = self.count@ + 1;
        }
        let mut i: usize = 0;
        while i < self.found.len()
            invariant
                self.found == old(self).found,
                self.possible == old(self).possible,
                old(self).wf(),
                self.count@ == old(self).count@ + 1,
                old(self).count_spec() < SLOT_INSERT_CAP,
                0 <= i <= self.found@.len(),
                forall|k: int| 0 <= k < i ==> #[trigger] self.found@[k]@ != text@,
            decreases self.found@.len() - i,
        {
            if self.found[i].eq(&text) {
                proof {
                    assert(self.found_texts()[i as int] == text@);
                    lemma_find_text_props(old(self).found_texts(), text@);
                    assert(find_text(old(self).found_texts(), text@) >= 0);
                    assert(self.found_texts() =~= old(self).found_texts());
                    assert(self.poss_cands() =~= old(self).poss_cands());
                }
                return ;
            }
            i = i + 1;
        }
        proof {
            lemma_find_text_props(old(self).found_texts(), text@);
            if find_text(old(self).found_texts(), text@) >= 0 {
                let w = choose|w: int|
                    0 <= w < old(self).found_texts().len() && old(self).found_texts()[w] == text@;
                assert(self.found@[w]@ != text@);
                assert(false);
            }
        }
        let ghost f0 = self.found@;
        let ghost tv = text@;
        self.found.push(text);
        proof {
            lemma_text_views_push(f0, self.found@.last());
            assert(f0 == old(self).found@);
            assert(self.found_texts() =~= old(self).found_texts().push(tv));
            assert(find_text(old(self).found_texts(), tv) < 0);
            assert(self.poss_cands() =~= old(self).poss_cands());
        }
    }

    fn insert_possible(&mut self, text: String, conf: Confidence)
        requires
            old(self).wf(),
            conf.wf(),
            old(self).count_spec() < SLOT_INSERT_CAP,
        ensures
            final(self).wf(),
            final(self).count_spec() == old(self).count_spec() + 1,
            final(self).found_texts() == old(self).found_texts(),
            ({
                let f = find_text(texts_of(old(self).poss_cands()), text@);
                if f >= 0 {
                    final(self).poss_cands() =~= old(self).poss_cands().update(
                        f,
                        (old(self).poss_cands()[f].0, old(self).poss_cands()[f].1
                            + conf.percent_spec()),
                    )
                } else {
                    final(self).poss_cands() =~= old(self).poss_cands().push(
                        (text@, conf.percent_spec()),
                    )
                }
            }),
    {
        proof {
            self.count@ = self.count@ + 1;
        }
        let w = conf.percent() as u64;
        let ghost keys = texts_of(old(self).poss_cands());
        let mut i: usize = 0;
        while i < self.possible.len()
            invariant
                self.found == old(self).found,
                self.possible == old(self).possible,
                self.count@ == old(self).count@ + 1,
                old(self).count_spec() < SLOT_INSERT_CAP,
                0 <= i <= self.possible@.len(),
                w == conf.percent_spec(),
                conf.wf(),
                old(self).wf(),
                keys == texts_of(old(self).poss_cands()),
                forall|k: int| 0 <= k < i ==> #[trigger] self.possible@[k].0@ != text@,
            decreases self.possible@.len() - i,
        {
            if self.possible[i].0.eq(&text) {
                proof {
                    assert(keys[i as int] == self.poss_cands()[i as int].0);
                    assert(keys[i as int] == text@);
                    assert forall|k: int| 0 <= k < i implies keys[k] != text@ by {
                        assert(keys[k] == self.poss_cands()[k].0);
                    }
                    lemma_find_text_at(keys, text@, i as int);
                    lemma_weight_le_total(old(self).poss_cands(), i as int);
                }
                let mut e = self.possible.remove(i);
                e.1 = e.1 + w;
                self.possible.insert(i, e);
                proof {
                    assert(self.possible@ =~= old(self).possible@.update(i as int, e));
                    assert(self.poss_cands() =~= old(self).poss_cands().update(
                        i as int,
                        (old(self).poss_cands()[i as int].0, old(self).poss_cands()[i as int].1
                            + conf.percent_spec()),
                    ));
                    lemma_weight_total_update(
                        old(self).poss_cands(),
                        i as int,
                        (old(self).poss_cands()[i as int].0, old(self).poss_cands()[i as int].1
                            + conf.percent_spec()),
                    );
                    assert forall|a: int, b: int|
                        0 <= a < b < self.poss_cands().len() implies (#[trigger] self.poss_cands()[a]).0 != (#[trigger] self.poss_cands()[b]).0 by {
                        assert((old(self).poss_cands()[a]).0 != (old(self).poss_cands()[b]).0);
                        assert(self.poss_cands()[a].0 == old(self).poss_cands()[a].0);
                        assert(self.poss_cands()[b].0 == old(self).poss_cands()[b].0);
                    }
                    assert forall|a: int|
                        0 <= a < self.poss_cands().len() implies (#[trigger] self.poss_cands()[a]).1 >= 0 by {
                        assert((old(self).poss_cands()[a]).1 >= 0);
                    }
                    assert(self.found_texts() == old(self).found_texts());
                    assert forall|a: int, b: int|
                        0 <= a < b < self.found_texts().len() implies #[trigger] self.found_texts()[a] != #[trigger] self.found_texts()[b] by {
                        assert(old(self).found_texts()[a] != old(self).found_texts()[b]);
                    }
                }
                return ;
            }
            i = i + 1;
        }
        proof {
            lemma_find_text_props(keys, text@);
            if find_text(keys, text@) >= 0 {
                let k = choose|k: int| 0 <= k < keys.len() && keys[k] == text@;
                assert(keys[k] == self.poss_cands()[k].0);
                assert(self.possible@[k].0@ != text@);
                assert(false);
            }
        }
        let ghost p0 = self.possible@;
        let ghost tv = text@;
        self.possible.push((text, w));
        proof {
            lemma_cand_views_push(p0, self.possible@.last());
            assert(self.poss_cands().drop_last() =~= old(self).poss_cands());
            assert(self.poss_cands().last() == (tv, w as int));
            assert(weight_total(self.poss_cands()) == weight_total(old(self).poss_cands())
                + w as int);
            assert forall|a: int, b: int|
                0 <= a < b < self.poss_cands().len() implies (#[trigger] self.poss_cands()[a]).0 != (#[trigger] self.poss_cands()[b]).0 by {
                assert(self.poss_cands()[a] == old(self).poss_cands()[a]);
                if b < self.poss_cands().len() - 1 {
                    assert(self.poss_cands()[b] == old(self).poss_cands()[b]);
                    assert((old(self).poss_cands()[a]).0 != (old(self).poss_cands()[b]).0);
                } else {
                    assert(self.possible@[a].0@ != tv);
                }
            }
            assert forall|a: int|
                0 <= a < self.poss_cands().len() implies (#[trigger] self.poss_cands()[a]).1
                >= 0 by {
                if a < self.poss_cands().len() - 1 {
                    assert(self.poss_cands()[a] == old(self).poss_cands()[a]);
                    assert((old(self).poss_cands()[a]).1 >= 0);
                }
            }
            assert(self.found_texts() == old(self).found_texts());
            assert forall|a: int, b: int|
                0 <= a < b < self.found_texts().len() implies #[trigger] self.found_texts()[a] != #[trigger] self.found_texts()[b] by {
                assert(old(self).found_texts()[a] != old(self).found_texts()[b]);
            }
        }
    }

    /// Resolves this slot to its final text, by the rule of [`resolve_spec`].
    pub fn get_text(&self) -> (r: String)
        requires
            self.wf(),
        ensures
            r@ == self.resolved(),
    {
        if self.found.len() > 0 {
            return join_texts(&self.found);
        }
        let ghost cands0 = self.poss_cands();
        // total weight of all candidates
        let mut total: u64 = 0;
        let mut i: usize = 0;
        proof {
            lemma_weight_total_nonneg(cands0);
            assert(cands0.take(0) =~= Seq::<(Seq<char>, int)>::empty());
        }
        while i < self.possible.len()
            invariant
                self.wf(),
                cands0 == self.poss_cands(),
                0 <= i <= self.possible@.len(),
                total == weight_total(cands0.take(i as int)),
                total <= weight_total(cands0),
            decreases self.possible@.len() - i,
        {
            proof {
                assert(cands0.take(i + 1).drop_last() =~= cands0.take(i as int));
                assert(cands0.take(i + 1).last() == cands0[i as int]);
                lemma_weight_total_take(cands0, i + 1);
                assert(weight_total(cands0) <= 100 * self.count_spec());
                assert(cands0[i as int] == (self.possible@[i as int].0@, self.possible@[i as int].1 as int));
            }
            total = total + self.possible[i].1;
            i = i + 1;
        }
        proof {
            assert(cands0.take(cands0.len() as int) =~= cands0);
        }
        // mark every candidate as uncertain
        let ghost marked = cands0.map_values(|e: (Seq<char>, int)| (uncertain(e.0), e.1));
        let mut cands: Vec<(String, u64)> = Vec::new();
        let mut i: usize = 0;
        while i < self.possible.len()
            invariant
                self.wf(),
                cands0 == self.poss_cands(),
                marked == cands0.map_values(|e: (Seq<char>, int)| (uncertain(e.0), e.1)),
                0 <= i <= self.possible@.len(),
                cand_views(cands@) =~= marked.take(i as int),
            decreases self.possible@.len() - i,
        {
            proof {
                reveal_strlit("??");
            }
            let mut m = "??".to_owned();
            m.append(self.possible[i].0.as_str());
            proof {
                assert(m@ =~= uncertain(cands0[i as int].0));
            }
            let ghost c0 = cands@;
            cands.push((m, self.possible[i].1));
            proof {
                lemma_cand_views_push(c0, cands@.last());
                assert(marked.take(i + 1).drop_last() =~= marked.take(i as int));
                assert(marked.take(i + 1).last() == marked[i as int]);
                assert(marked[i as int] == (uncertain(cands0[i as int].0), cands0[i as int].1));
                assert(cands0[i as int] == (self.possible@[i as int].0@, self.possible@[i as int].1 as int));
                assert(cand_views(cands@) =~= marked.take(i + 1));
            }
            i = i + 1;
        }
        proof {
            assert(marked.take(marked.len() as int) =~= marked);
        }
        let sorted = sort_candidates(cands);
        let ghost sorted_spec = sort_desc_spec(marked);
        // keep the candidates whose weight reaches a tenth of the total
        let ghost pred = |e: (Seq<char>, int)| 10 * e.1 >= weight_total(cands0);
        let mut kept: Vec<String> = Vec::new();
        let mut i: usize = 0;
        proof {
            assert(sorted_spec.take(0) =~= Seq::<(Seq<char>, int)>::empty());
            reveal(Seq::filter);
        }
        while i < sorted.len()
            invariant
                cand_views(sorted@) =~= sorted_spec,
                pred == (|e: (Seq<char>, int)| 10 * e.1 >= weight_total(cands0)),
                total == weight_total(cands0),
                0 <= i <= sorted@.len(),
                text_views(kept@) =~= texts_of(sorted_spec.take(i as int).filter(pred)),
            decreases sorted@.len() - i,
        {
            proof {
                reveal(Seq::filter);
                assert(sorted_spec.take(i + 1).drop_last() =~= sorted_spec.take(i as int));
                assert(sorted_spec.take(i + 1).last() == sorted_spec[i as int]);
                assert(sorted_spec[i as int] == (sorted@[i as int].0@, sorted@[i as int].1 as int));
            }
            if (10 as u128) * (sorted[i].1 as u128) >= (total as u128) {
                let ghost k0 = kept@;
                kept.push(sorted[i].0.clone());
                proof {
                    assert(pred(sorted_spec[i as int]));
                    lemma_text_views_push(k0, kept@.last());
                    assert(sorted_spec.take(i + 1) =~= sorted_spec.take(i as int).push(
                        sorted_spec[i as int],
                    ));
                    assert(sorted_spec.take(i + 1).filter(pred) =~= sorted_spec.take(
                        i as int,
                    ).filter(pred).push(sorted_spec[i as int]));
                    lemma_texts_of_push(
                        sorted_spec.take(i as int).filter(pred),
                        sorted_spec[i as int],
                    );
                }
            } else {
                proof {
                    assert(!pred(sorted_spec[i as int]));
                    assert(sorted_spec.take(i + 1) =~= sorted_spec.take(i as int).push(
                        sorted_spec[i as int],
                    ));
                    assert(sorted_spec.take(i + 1).filter(pred) =~= sorted_spec.take(
                        i as int,
                    ).filter(pred));
                }
            }
            i = i + 1;
        }
        proof {
            assert(sorted_spec.take(sorted_spec.len() as int) =~= sorted_spec);
        }
        if kept.len() == 0 {
            let mut names: Vec<String> = Vec::new();
            let mut i: usize = 0;
            while i < sorted.len()
                invariant
                    cand_views(sorted@) =~= sorted_spec,
                    0 <= i <= sorted@.len(),
                    text_views(names@) =~= texts_of(sorted_spec.take(i as int)),
                decreases sorted@.len() - i,
            {
                let ghost n0 = names@;
                names.push(sorted[i].0.clone());
                proof {
                    assert(sorted_spec[i as int] == (sorted@[i as int].0@, sorted@[i as int].1 as int));
                    lemma_text_views_push(n0, names@.last());
                    assert(sorted_spec.take(i + 1).drop_last() =~= sorted_spec.take(i as int));
                    assert(sorted_spec.take(i + 1).last() == sorted_spec[i as int]);
                    assert(sorted_spec.take(i + 1) =~= sorted_spec.take(i as int).push(
                        sorted_spec[i as int],
                    ));
                    lemma_texts_of_push(sorted_spec.take(i as int), sorted_spec[i as int]);
                }
                i = i + 1;
            }
            proof {
                assert(sorted_spec.take(sorted_spec.len() as int) =~= sorted_spec);
            }
            join_texts(&names)
        } else {
            join_texts(&kept)
        }
    }

    /// Clears the tally for the next span.
    pub fn reset(&mut self)
        ensures
            final(self).wf(),
            final(self).found_texts() =~= Seq::<Seq<char>>::empty(),
            final(self).poss_cands() =~= Seq::<(Seq<char>, int)>::empty(),
            final(self).count_spec() == 0,
    {
        self.found.clear();
        self.possible.clear();
        proof {
            self.count@ = 0;
        }
    }
}



/// The position in `h` of the first committed span not ending before frame
/// `p` (the length when every span does).
pub open spec fn first_covering(h: Seq<AccumResult>, p: int) -> int
    decreases h.len(),
{
    if h.len() == 0 {
        0
    } else if h[0].end.index_spec() >= p {
        0
    } else {
        1 + first_covering(h.drop_first(), p)
    }
}

proof fn lemma_first_covering_at(h: Seq<AccumResult>, p: int, e: int)
    requires
        0 <= e <= h.len(),
        forall|i: int| 0 <= i < e ==> (#[trigger] h[i]).end.index_spec() < p,
        e < h.len() ==> h[e].end.index_spec() >= p,
    ensures
        first_covering(h, p) == e,
    decreases e,
{
    if e > 0 {
        assert(h[0].end.index_spec() < p);
        assert forall|i: int| 0 <= i < e - 1 implies (#[trigger] h.drop_first()[
            i]).end.index_spec() < p by {
            assert(h.drop_first()[i] == h[i + 1]);
        }
        if e - 1 < h.drop_first().len() {
            assert(h.drop_first()[e - 1] == h[e]);
        }
        lemma_first_covering_at(h.drop_first(), p, e - 1);
    }
}

/// The front of a committed-span list is past frame `p` exactly up to
/// [`num_passed`].
pub proof fn lemma_num_passed(s: Seq<AccumResult>, p: nat)
    ensures
        0 <= num_passed(s, p) <= s.len(),
        forall|j: int| 0 <= j < num_passed(s, p) ==> (#[trigger] s[j]).end.index_spec() < p,
        num_passed(s, p) < s.len() ==> (s[num_passed(s, p)]).end.index_spec() >= p,
    decreases s.len(),
{
    if s.len() > 0 && s[0].end.index_spec() < p {
        lemma_num_passed(s.drop_first(), p);
        assert forall|j: int| 0 <= j < num_passed(s, p) implies (#[trigger] s[j]).end.index_spec()
            < p by {
            if j > 0 {
                assert(s.drop_first()[j - 1] == s[j]);
            }
        }
        if num_passed(s, p) < s.len() {
            assert(s.drop_first()[num_passed(s, p) - 1] == s[num_passed(s, p)]);
        }
    }
}

/// The probe has moved exactly past the committed spans that end before
/// frame `p`: what remains retained is what a probe at `p` can still ask
/// for.
#[verifier::opaque]
pub open spec fn probe_synced(a: TextAccumulator, p: int) -> bool {
    &&& forall|i: int|
        0 <= i < a.emitted_spec() ==> (#[trigger] a.history_spec()[i]).end.index_spec() < p
    &&& (a.emitted_spec() < a.history_spec().len() ==> (a.history_spec()[a.emitted_spec()]).end.index_spec() >= p)
}

/// The retained spans are exactly the committed history with the
/// already-passed prefix removed.
pub proof fn lemma_retained_are_history_tail(a: &TextAccumulator)
    requires
        a.wf(),
    ensures
        0 <= a.emitted_spec() <= a.history_spec().len(),
        a.results_seq() =~= a.history_spec().skip(a.emitted_spec()),
{
}

/// The probe views read only the committed history, the end-of-stream mark
/// and the open span: two accumulator states agreeing on those agree on
/// every probe view.
pub proof fn lemma_probe_views_agree(a: TextAccumulator, b: TextAccumulator, p: int)
    requires
        a.history_spec() == b.history_spec(),
        a.eof_spec() == b.eof_spec(),
        a.found_start_spec() == b.found_start_spec(),
    ensures
        probe_text(a, p) == probe_text(b, p),
        probe_boundary(a, p) == probe_boundary(b, p),
        probe_available(a, p) == probe_available(b, p),
{
}

/// The committed text in effect at probe `p`: the text of the (unique)
/// committed span with `start < p <= end`, or the empty string.
pub open spec fn probe_text(a: TextAccumulator, p: int) -> Seq<char> {
    let h = a.history_spec();
    let i = first_covering(h, p);
    if i < h.len() && h[i].start.index_spec() < p && p <= h[i].end.index_spec() {
        h[i].text@
    } else {
        Seq::empty()
    }
}

/// Is the component decided at probe `p` (not straddling an open span that
/// began at or after it)?
pub open spec fn probe_available(a: TextAccumulator, p: int) -> bool {
    a.eof_spec() is Some || (match a.found_start_spec() {
        Some(s) => s.index_spec() < p,
        None => true,
    })
}

/// Does a span boundary of the component fall exactly on probe `p`?
pub open spec fn probe_boundary(a: TextAccumulator, p: int) -> bool {
    ||| (match a.eof_spec() {
        Some(e) => e.index_spec() == p,
        None => false,
    })
    ||| (match a.found_start_spec() {
        Some(s) => s.index_spec() == p,
        None => false,
    })
    ||| {
        let h = a.history_spec();
        let i = first_covering(h, p);
        i < h.len() && (h[i].start.index_spec() == p || h[i].end.index_spec() == p)
    }
}

/// One completed span: a component name, the half-open frame interval
/// `[start, end)`, and the committed text.
#[derive(Debug, Clone)]
pub struct AccumResult {
    pub name: String,
    pub start: FramePosition,
    pub end: FramePosition,
    pub text: String,
}

impl ExtractedTexts {
    pub open spec fn wf(self) -> bool {
        forall|i: int| 0 <= i < self.result@.len() ==> (#[trigger] self.result@[i]).wf()
    }
}

/// What one slot looks like after absorbing one observation (the exact
/// contract of [`InnerAccumulator::insert`], as a relation).
pub open spec fn slot_after(prev: InnerAccumulator, rec: Recognition, cur: InnerAccumulator) -> bool {
    &&& cur.count_spec() == prev.count_spec() + 1
    &&& match rec {
        Recognition::Found(text, _) => cur.poss_cands() == prev.poss_cands() && cur.found_texts()
            =~= (if find_text(prev.found_texts(), text@) >= 0 {
            prev.found_texts()
        } else {
            prev.found_texts().push(text@)
        }),
        Recognition::Possible(text, conf) => cur.found_texts() == prev.found_texts() && ({
            let f = find_text(texts_of(prev.poss_cands()), text@);
            if f >= 0 {
                cur.poss_cands() =~= prev.poss_cands().update(
                    f,
                    (prev.poss_cands()[f].0, prev.poss_cands()[f].1 + conf.percent_spec()),
                )
            } else {
                cur.poss_cands() =~= prev.poss_cands().push((text@, conf.percent_spec()))
            }
        }),
    }
}

/// A slot of a fresh span after absorbing its first observation.
pub open spec fn fresh_slot_after(rec: Recognition, cur: InnerAccumulator) -> bool {
    exists|e: InnerAccumulator| slot_empty(e) && #[trigger] slot_after(e, rec, cur)
}

/// An empty slot tally.
pub open spec fn slot_empty(a: InnerAccumulator) -> bool {
    a.found_texts() =~= Seq::<Seq<char>>::empty() && a.poss_cands() =~= Seq::<
        (Seq<char>, int),
    >::empty() && a.count_spec() == 0
}

/// The final text of each slot, in slot order.
pub open spec fn resolved_texts(s: Seq<InnerAccumulator>) -> Seq<Seq<char>> {
    s.map_values(|a: InnerAccumulator| a.resolved())
}

/// How many committed spans at the front of `s` lie entirely before frame
/// `idx` (their `end` is below it).
pub open spec fn num_passed(s: Seq<AccumResult>, idx: nat) -> int
    decreases s.len(),
{
    if s.len() == 0 {
        0
    } else if s[0].end.index_spec() < idx {
        1 + num_passed(s.drop_first(), idx)
    } else {
        0
    }
}

/// The text accumulator of one component: merges the OCR guesses of the
/// frames of an open span, commits one `AccumResult` when the span closes,
/// and keeps the recently committed spans so that "which text was in effect
/// at frame X" can be answered during the reporting lag.
pub struct TextAccumulator {
    name: String,
    end_of_frames: Option<FramePosition>,
    found_start: Option<FramePosition>,
    accum: Vec<InnerAccumulator>,
    results: Vec<AccumResult>,
    history: Ghost<Seq<AccumResult>>,
    emitted_upto: Ghost<int>,
    last_pos: Ghost<int>,
    frames: Ghost<nat>,
}

impl TextAccumulator {
    pub closed spec fn name_spec(self) -> Seq<char> {
        self.name@
    }

    pub closed spec fn eof_spec(self) -> Option<FramePosition> {
        self.end_of_frames
    }

    /// Where the open span started, if one is open.
    pub closed spec fn found_start_spec(self) -> Option<FramePosition> {
        self.found_start
    }

    /// The per-slot tallies of the open span.
    pub closed spec fn inners(self) -> Seq<InnerAccumulator> {
        self.accum@
    }

    /// The committed spans still retained for probing.
    pub closed spec fn results_seq(self) -> Seq<AccumResult> {
        self.results@
    }

    /// Every span this accumulator has ever committed, oldest first.
    pub closed spec fn history_spec(self) -> Seq<AccumResult> {
        self.history@
    }

    /// How many committed spans the probe has already moved past (they are
    /// no longer retained).
    pub closed spec fn emitted_spec(self) -> int {
        self.emitted_upto@
    }

    /// The index of the last frame received, or -1 before the first.
    pub closed spec fn last_index(self) -> int {
        self.last_pos@
    }

    /// How many frames with extracted text this accumulator has absorbed.
    pub closed spec fn frames_spec(self) -> nat {
        self.frames@
    }

    pub closed spec fn wf(self) -> bool {
        &&& forall|i: int| 0 <= i < self.inners().len() ==> (#[trigger] self.inners()[i]).wf()
        &&& forall|i: int|
            0 <= i < self.inners().len() ==> (#[trigger] self.inners()[i]).count_spec()
                <= self.frames_spec()
        &&& forall|i: int|
            0 <= i < self.history_spec().len() ==> (#[trigger] self.history_spec()[i]).start.index_spec() < self.history_spec()[i].end.index_spec()
        &&& forall|i: int, j: int|
            0 <= i < j < self.history_spec().len() ==> (#[trigger] self.history_spec()[i]).end.index_spec() <= (#[trigger] self.history_spec()[j]).start.index_spec()
        &&& forall|i: int|
            0 <= i < self.history_spec().len() ==> (#[trigger] self.history_spec()[i]).end.index_spec() <= self.last_index()
        &&& 0 <= self.emitted_upto@ <= self.history_spec().len()
        &&& self.results_seq() =~= self.history_spec().skip(self.emitted_upto@)
        &&& (match self.found_start_spec() {
            Some(s) => s.index_spec() <= self.last_index() && (forall|i: int|
                0 <= i < self.history_spec().len() ==> (#[trigger] self.history_spec()[i]).end.index_spec() <= s.index_spec()),
            None => true,
        })
        &&& (self.found_start_spec() is None ==> forall|i: int|
            0 <= i < self.inners().len() ==> slot_empty(#[trigger] self.inners()[i]))
        &&& self.last_index() >= -1
        &&& self.frames_spec() <= SLOT_INSERT_CAP
    }

    pub fn new(name: String) -> (r: TextAccumulator)
        ensures
            r.wf(),
            r.name_spec() == name@,
            r.eof_spec() is None,
            r.found_start_spec() is None,
            r.inners() =~= Seq::<InnerAccumulator>::empty(),
            r.results_seq() =~= Seq::<AccumResult>::empty(),
            r.history_spec() =~= Seq::<AccumResult>::empty(),
            r.emitted_spec() == 0,
            r.last_index() == -1,
            r.frames_spec() == 0,
    {
        TextAccumulator {
            name,
            end_of_frames: None,
            found_start: None,
            accum: Vec::new(),
            results: Vec::new(),
            history: Ghost(Seq::empty()),
            emitted_upto: Ghost(0),
            last_pos: Ghost(-1),
            frames: Ghost(0),
        }
    }

    /// How many text slots this component carries (0 before its first
    /// open span).
    pub fn slot_count(&self) -> (r: usize)
        ensures
            r == self.inners().len(),
    {
        self.accum.len()
    }

    /// Receives one frame: extracted texts while the component's resolved
    /// detection is `Found`, nothing while it is `Absent`. Returns the span
    /// committed by this frame, if it closed one.
    pub fn receive_frame(&mut self, pos: FramePosition, result: Option<&ExtractedTexts>) -> (r:
        Option<AccumResult>)
        requires
            old(self).wf(),
            pos.index_spec() > old(self).last_index(),
            (result matches Some(texts) ==> texts.wf() && (old(self).inners().len() == 0 || old(
                self,
            ).inners().len() == texts.result@.len())),
            old(self).frames_spec() < SLOT_INSERT_CAP,
        ensures
            final(self).wf(),
            final(self).last_index() == pos.index_spec(),
            final(self).eof_spec() == old(self).eof_spec(),
            final(self).name_spec() == old(self).name_spec(),
            final(self).emitted_spec() == old(self).emitted_spec(),
            (result matches Some(texts) ==> final(self).after_open(*old(self), pos, *texts) && r
                is None),
            (result is None ==> final(self).after_close(*old(self), pos, r)),
    {
        match result {
            Some(texts) => {
                self.handle_found(pos, texts);
                None
            },
            None => self.handle_absent(pos),
        }
    }

    /// Receives the end-of-stream sentinel: the open span, if any, closes at
    /// `pos`, and every later probe finds this accumulator decided.
    pub fn receive_end_of_frames(&mut self, pos: FramePosition) -> (r: Option<AccumResult>)
        requires
            old(self).wf(),
            pos.index_spec() > old(self).last_index(),
        ensures
            final(self).wf(),
            final(self).last_index() == pos.index_spec(),
            final(self).eof_spec() == Some(pos),
            final(self).name_spec() == old(self).name_spec(),
            final(self).emitted_spec() == old(self).emitted_spec(),
            final(self).after_close(*old(self), pos, r),
    {
        self.end_of_frames = Some(pos);
        proof {
            assert(self.inners() == old(self).inners());
            assert(self.history_spec() == old(self).history_spec());
            assert(self.results_seq() == old(self).results_seq());
            assert(self.emitted_upto@ == old(self).emitted_upto@);
            assert(self.emitted_spec() == old(self).emitted_spec());
            assert(self.last_index() == old(self).last_index());
            assert(self.found_start_spec() == old(self).found_start_spec());
            assert(self.frames_spec() == old(self).frames_spec());
            assert(self.wf());
        }
        self.handle_absent(pos)
    }

    /// The state after a frame with extracted texts: a span is open (since
    /// `pos` if none was), and each slot has absorbed its observation (fresh
    /// slots first, if this span's first frame).
    pub open spec fn after_open(self, prev: TextAccumulator, pos: FramePosition, texts: ExtractedTexts) -> bool {
        &&& self.found_start_spec() == (match prev.found_start_spec() {
            Some(s) => Some(s),
            None => Some(pos),
        })
        &&& self.inners().len() == texts.result@.len()
        &&& (prev.inners().len() > 0 ==> forall|i: int|
            0 <= i < self.inners().len() ==> slot_after(
                prev.inners()[i],
                texts.result@[i],
                #[trigger] self.inners()[i],
            ))
        &&& (prev.inners().len() == 0 ==> forall|i: int|
            0 <= i < self.inners().len() ==> fresh_slot_after(
                texts.result@[i],
                #[trigger] self.inners()[i],
            ))
        &&& self.history_spec() == prev.history_spec()
        &&& self.frames_spec() == prev.frames_spec() + 1
    }

    /// The state after a frame with no text (the detection was `Absent`, or
    /// the stream ended): no span is open, the slot tallies are clear, and
    /// if a span had been open it is committed — `[start, pos)`, its text
    /// the space-joined resolution of the slots.
    pub open spec fn after_close(self, prev: TextAccumulator, pos: FramePosition, r: Option<AccumResult>) -> bool {
        &&& self.found_start_spec() is None
        &&& self.inners().len() == prev.inners().len()
        &&& (forall|i: int| 0 <= i < self.inners().len() ==> slot_empty(#[trigger] self.inners()[i]))
        &&& self.frames_spec() == prev.frames_spec()
        &&& match prev.found_start_spec() {
            Some(start) => r matches Some(res) && res.name@ == prev.name_spec() && res.start
                == start && res.end == pos && res.text@ == join_space_spec(
                resolved_texts(prev.inners()),
            ) && self.history_spec() =~= prev.history_spec().push(res),
            None => r is None && self.history_spec() == prev.history_spec(),
        }
    }

    pub fn prev_span_available(&self, end: &FramePosition) -> (r: bool)
        ensures
            r == (self.eof_spec() is Some || !(match self.found_start_spec() {
                Some(s) => s.index_spec() >= end.index_spec(),
                None => false,
            })),
    {
        if self.end_of_frames.is_some() {
            return true;
        }
        match &self.found_start {
            Some(s) => !(s.index() >= end.index()),
            None => true,
        }
    }

    /// The retained span in effect just before `end_pos`, if its text covers
    /// that probe.
    pub fn prev_span_result(&self, end_pos: &FramePosition) -> (r: Option<String>)
        ensures
            match r {
                Some(text) => self.results_seq().len() > 0 && self.results_seq()[0].start.index_spec()
                    < end_pos.index_spec() && self.results_seq()[0].end.index_spec()
                    >= end_pos.index_spec() && text@ == self.results_seq()[0].text@,
                None => self.results_seq().len() == 0 || !(self.results_seq()[0].start.index_spec()
                    < end_pos.index_spec() && self.results_seq()[0].end.index_spec()
                    >= end_pos.index_spec()),
            },
    {
        if self.results.len() == 0 {
            return None;
        }
        let front = &self.results[0];
        if front.start.index() < end_pos.index() && front.end.index() >= end_pos.index() {
            Some(front.text.clone())
        } else {
            None
        }
    }

    /// Does a span boundary of this component fall exactly on `end`?
    pub fn is_span_end(&self, end: &FramePosition) -> (r: bool)
        ensures
            r == ({
                ||| (match self.eof_spec() {
                    Some(e) => e.index_spec() == end.index_spec(),
                    None => false,
                })
                ||| (match self.found_start_spec() {
                    Some(s) => s.index_spec() == end.index_spec(),
                    None => false,
                })
                ||| (self.results_seq().len() > 0 && (self.results_seq()[0].start.index_spec()
                    == end.index_spec() || self.results_seq()[0].end.index_spec()
                    == end.index_spec()))
            }),
    {
        let from_eof = match &self.end_of_frames {
            Some(e) => e.index() == end.index(),
            None => false,
        };
        let from_start = match &self.found_start {
            Some(s) => s.index() == end.index(),
            None => false,
        };
        let from_result = if self.results.len() > 0 {
            self.results[0].start.index() == end.index() || self.results[0].end.index()
                == end.index()
        } else {
            false
        };
        from_eof || from_start || from_result
    }


    fn handle_found(&mut self, pos: FramePosition, texts: &ExtractedTexts)
        requires
            old(self).wf(),
            pos.index_spec() > old(self).last_index(),
            texts.wf(),
            old(self).inners().len() == 0 || old(self).inners().len() == texts.result@.len(),
            old(self).frames_spec() < SLOT_INSERT_CAP,
        ensures
            final(self).wf(),
            final(self).last_index() == pos.index_spec(),
            final(self).eof_spec() == old(self).eof_spec(),
            final(self).name_spec() == old(self).name_spec(),
            final(self).emitted_spec() == old(self).emitted_spec(),
            final(self).after_open(*old(self), pos, *texts),
    {
        proof {
            self.last_pos@ = pos.index_spec() as int;
            self.frames@ = self.frames@ + 1;
        }
        if self.found_start.is_none() {
            self.found_start = Some(pos);
        }
        let ghost fs1 = self.found_start;
        let ghost was_empty = self.accum@.len() == 0;
        if self.accum.len() == 0 {
            let mut j: usize = 0;
            while j < texts.result.len()
                invariant
                    0 <= j <= texts.result@.len(),
                    self.accum@.len() == j,
                    forall|i: int| 0 <= i < j ==> slot_empty(#[trigger] self.accum@[i]),
                    forall|i: int| 0 <= i < j ==> (#[trigger] self.accum@[i]).wf(),
                    self.name == old(self).name,
                    self.end_of_frames == old(self).end_of_frames,
                    self.found_start == fs1,
                    self.results == old(self).results,
                    self.history == old(self).history,
                    self.emitted_upto == old(self).emitted_upto,
                    self.last_pos@ == pos.index_spec() as int,
                    self.frames@ == old(self).frames@ + 1,
                decreases texts.result@.len() - j,
            {
                self.accum.push(InnerAccumulator::new());
                j = j + 1;
            }
        }
        let ghost base = self.accum@;
        let mut i: usize = 0;
        while i < self.accum.len()
            invariant
                self.accum@.len() == base.len(),
                base.len() == texts.result@.len(),
                texts.wf(),
                old(self).frames_spec() < SLOT_INSERT_CAP,
                forall|k: int| 0 <= k < base.len() ==> (#[trigger] base[k]).wf(),
                forall|k: int|
                    0 <= k < base.len() ==> (#[trigger] base[k]).count_spec() < SLOT_INSERT_CAP,
                was_empty <==> old(self).inners().len() == 0,
                was_empty ==> forall|k: int| 0 <= k < base.len() ==> slot_empty(#[trigger] base[k]),
                !was_empty ==> base == old(self).inners(),
                0 <= i <= base.len(),
                forall|k: int| i <= k < base.len() ==> #[trigger] self.accum@[k] == base[k],
                forall|k: int|
                    0 <= k < i ==> slot_after(base[k], texts.result@[k], #[trigger] self.accum@[k]),
                forall|k: int| 0 <= k < i ==> (#[trigger] self.accum@[k]).wf(),
                forall|k: int|
                    0 <= k < i ==> (#[trigger] self.accum@[k]).count_spec() == base[k].count_spec()
                        + 1,
                self.name == old(self).name,
                self.end_of_frames == old(self).end_of_frames,
                self.found_start == fs1,
                self.results == old(self).results,
                self.history == old(self).history,
                self.emitted_upto == old(self).emitted_upto,
                self.last_pos@ == pos.index_spec() as int,
                self.frames@ == old(self).frames@ + 1,
            decreases base.len() - i,
        {
            let ghost before = self.accum@;
            let mut slot = self.accum.remove(i);
            slot.insert(&texts.result[i]);
            self.accum.insert(i, slot);
            proof {
                assert(self.accum@ =~= before.update(i as int, self.accum@[i as int]));
            }
            i = i + 1;
        }
        proof {
            assert forall|k: int|
                0 <= k < self.inners().len() implies (#[trigger] self.inners()[k]).count_spec()
                <= self.frames_spec() by {
                if was_empty {
                    assert(slot_empty(base[k]));
                } else {
                    assert(base[k] == old(self).inners()[k]);
                    assert((old(self).inners()[k]).count_spec() <= old(self).frames_spec());
                }
                assert(self.inners()[k].count_spec() == base[k].count_spec() + 1);
            }
            assert forall|a: int|
                0 <= a < self.history_spec().len() implies (#[trigger] self.history_spec()[
                a]).end.index_spec() <= self.last_index() by {
                assert((old(self).history_spec()[a]).end.index_spec() <= old(self).last_index());
            }
            match self.found_start {
                Some(s) => {
                    assert forall|a: int|
                        0 <= a < self.history_spec().len() implies (#[trigger] self.history_spec()[
                        a]).end.index_spec() <= s.index_spec() by {
                        if old(self).found_start_spec() is Some {
                            assert((old(self).history_spec()[a]).end.index_spec() <= old(
                                self,
                            ).found_start_spec()->Some_0.index_spec());
                        } else {
                            assert((old(self).history_spec()[a]).end.index_spec() <= old(
                                self,
                            ).last_index());
                        }
                    }
                },
                None => {},
            }
            if was_empty {
                assert forall|k: int|
                    0 <= k < self.inners().len() implies fresh_slot_after(
                    texts.result@[k],
                    #[trigger] self.inners()[k],
                ) by {
                    assert(slot_empty(base[k]));
                    assert(slot_after(base[k], texts.result@[k], self.inners()[k]));
                }
                assert(old(self).inners().len() == 0);
            } else {
                assert(old(self).inners().len() > 0);
                assert forall|k: int|
                    0 <= k < self.inners().len() implies slot_after(
                    old(self).inners()[k],
                    texts.result@[k],
                    #[trigger] self.inners()[k],
                ) by {
                    assert(slot_after(base[k], texts.result@[k], self.inners()[k]));
                }
            }
            assert(self.after_open(*old(self), pos, *texts));
        }
    }

    fn handle_absent(&mut self, pos: FramePosition) -> (r: Option<AccumResult>)
        requires
            old(self).wf(),
            pos.index_spec() > old(self).last_index(),
        ensures
            final(self).wf(),
            final(self).last_index() == pos.index_spec(),
            final(self).eof_spec() == old(self).eof_spec(),
            final(self).name_spec() == old(self).name_spec(),
            final(self).emitted_spec() == old(self).emitted_spec(),
            final(self).after_close(*old(self), pos, r),
            final(self).frames_spec() == old(self).frames_spec(),
    {
        proof {
            self.last_pos@ = pos.index_spec() as int;
        }
        let start = match &self.found_start {
            Some(s) => *s,
            None => {
                proof {
                    assert(self.inners() == old(self).inners());
                    assert(self.history_spec() == old(self).history_spec());
                    assert(self.results_seq() == old(self).results_seq());
                    assert forall|a: int|
                        0 <= a < self.history_spec().len() implies (#[trigger] self.history_spec()[
                        a]).end.index_spec() <= self.last_index() by {
                        assert((old(self).history_spec()[a]).end.index_spec() <= old(
                            self,
                        ).last_index());
                    }
                }
                return None;
            },
        };
        self.found_start = None;
        let ghost base = self.accum@;
        proof {
            assert forall|k: int| 0 <= k < base.len() implies (#[trigger] base[k]).wf() by {
                assert((old(self).inners()[k]).wf());
            }
        }
        let mut segments: Vec<String> = Vec::new();
        let mut i: usize = 0;
        while i < self.accum.len()
            invariant
                self.accum@.len() == base.len(),
                forall|k: int| 0 <= k < base.len() ==> (#[trigger] base[k]).wf(),
                0 <= i <= base.len(),
                segments@.len() == i,
                forall|k: int| i <= k < base.len() ==> #[trigger] self.accum@[k] == base[k],
                forall|k: int| 0 <= k < i ==> slot_empty(#[trigger] self.accum@[k]),
                forall|k: int| 0 <= k < i ==> (#[trigger] self.accum@[k]).wf(),
                text_views(segments@) =~= resolved_texts(base.take(i as int)),
                self.name == old(self).name,
                self.end_of_frames == old(self).end_of_frames,
                self.found_start is None,
                self.results == old(self).results,
                self.history == old(self).history,
                self.emitted_upto == old(self).emitted_upto,
                self.last_pos@ == pos.index_spec() as int,
                self.frames == old(self).frames,
            decreases base.len() - i,
        {
            let ghost seg0 = segments@;
            segments.push(self.accum[i].get_text());
            let ghost before = self.accum@;
            let mut slot = self.accum.remove(i);
            slot.reset();
            self.accum.insert(i, slot);
            proof {
                assert(self.accum@ =~= before.update(i as int, self.accum@[i as int]));
                lemma_text_views_push(seg0, segments@.last());
                assert(resolved_texts(base.take(i + 1)).drop_last() =~= resolved_texts(
                    base.take(i as int),
                ));
                assert(resolved_texts(base.take(i + 1)).last() == base[i as int].resolved());
                assert(text_views(segments@) =~= resolved_texts(base.take(i + 1)));
            }
            i = i + 1;
        }
        proof {
            assert(base.take(base.len() as int) =~= base);
        }
        let text = join_with_spaces(&segments);
        let committed = AccumResult {
            name: self.name.clone(),
            start,
            end: pos,
            text: text.clone(),
        };
        let returned = AccumResult { name: self.name.clone(), start, end: pos, text };
        let ghost h0 = self.history@;
        let ghost res_spec = committed;
        self.results.push(committed);
        proof {
            self.history@ = self.history@.push(res_spec);
            assert(returned == res_spec);
            assert(old(self).results_seq() =~= old(self).history_spec().skip(
                old(self).emitted_upto@,
            ));
            assert(h0 == old(self).history@);
            assert(self.emitted_upto@ == old(self).emitted_upto@);
            assert(self.results@ =~= self.history@.skip(self.emitted_upto@)) by {
                assert(h0.push(res_spec).skip(self.emitted_upto@) =~= h0.skip(
                    self.emitted_upto@,
                ).push(res_spec));
            }
            assert forall|a: int|
                0 <= a < self.history@.len() implies (#[trigger] self.history@[
                a]).end.index_spec() <= self.last_index() by {
                if a < self.history@.len() - 1 {
                    assert((old(self).history_spec()[a]).end.index_spec() <= old(
                        self,
                    ).last_index());
                }
            }
            assert forall|a: int|
                0 <= a < self.history@.len() implies (#[trigger] self.history@[
                a]).start.index_spec() < (#[trigger] self.history@[a]).end.index_spec() by {
                if a < self.history@.len() - 1 {
                    assert((old(self).history_spec()[a]).start.index_spec() < (old(
                        self,
                    ).history_spec()[a]).end.index_spec());
                } else {
                    assert(start.index_spec() <= old(self).last_index());
                }
            }
            assert forall|a: int, b: int|
                0 <= a < b < self.history@.len() implies (#[trigger] self.history@[a]).end.index_spec() <= (#[trigger] self.history@[b]).start.index_spec() by {
                if b < self.history@.len() - 1 {
                    assert(old(self).history_spec()[a].end.index_spec() <= old(
                        self,
                    ).history_spec()[b].start.index_spec());
                } else {
                    assert(old(self).history_spec()[a].end.index_spec() <= start.index_spec());
                }
            }
        }
        Some(returned)
    }

    /// Does a span boundary of this component fall exactly on the probe at
    /// `pos`? (The probe must have moved exactly past the spans before it.)
    pub fn boundary_at(&self, pos: &FramePosition) -> (r: bool)
        requires
            self.wf(),
            probe_synced(*self, pos.index_spec() as int),
        ensures
            r == probe_boundary(*self, pos.index_spec() as int),
    {
        proof {
            reveal(probe_synced);
            lemma_first_covering_at(
                self.history_spec(),
                pos.index_spec() as int,
                self.emitted_spec(),
            );
            assert(self.results_seq() =~= self.history_spec().skip(self.emitted_upto@));
            if self.results_seq().len() > 0 {
                assert(self.results_seq()[0] == self.history_spec()[self.emitted_spec()]);
            }
        }
        self.is_span_end(pos)
    }

    /// The committed text in effect at the probe at `pos`, or the empty
    /// string where no committed span covers it. (The probe must have moved
    /// exactly past the spans before it.)
    pub fn text_at(&self, pos: &FramePosition) -> (r: String)
        requires
            self.wf(),
            probe_synced(*self, pos.index_spec() as int),
        ensures
            r@ == probe_text(*self, pos.index_spec() as int),
    {
        proof {
            reveal(probe_synced);
            lemma_first_covering_at(
                self.history_spec(),
                pos.index_spec() as int,
                self.emitted_spec(),
            );
            assert(self.results_seq() =~= self.history_spec().skip(self.emitted_upto@));
            if self.results_seq().len() > 0 {
                assert(self.results_seq()[0] == self.history_spec()[self.emitted_spec()]);
            }
        }
        match self.prev_span_result(pos) {
            Some(text) => text,
            None => String::new(),
        }
    }

    /// Discards retained spans that lie entirely before the probe at `pos`:
    /// the probe has moved past them and they will never be asked for again.
    pub fn seek_result_to(&mut self, pos: &FramePosition)
        requires
            old(self).wf(),
        ensures
            final(self).wf(),
            final(self).results_seq() =~= old(self).results_seq().skip(
                num_passed(old(self).results_seq(), pos.index_spec()),
            ),
            final(self).emitted_spec() == old(self).emitted_spec() + num_passed(
                old(self).results_seq(),
                pos.index_spec(),
            ),
            final(self).history_spec() == old(self).history_spec(),
            final(self).eof_spec() == old(self).eof_spec(),
            final(self).found_start_spec() == old(self).found_start_spec(),
            final(self).inners() == old(self).inners(),
            final(self).last_index() == old(self).last_index(),
            final(self).name_spec() == old(self).name_spec(),
            final(self).frames_spec() == old(self).frames_spec(),
    {
        let ghost r0 = self.results@;
        let ghost k: int = 0;
        proof {
            assert(r0.skip(0) =~= r0);
        }
        while self.results.len() > 0 && self.results[0].end.index() < pos.index()
            invariant
                old(self).wf(),
                0 <= k <= r0.len(),
                r0 == old(self).results@,
                self.results@ =~= r0.skip(k),
                num_passed(r0, pos.index_spec()) == k + num_passed(
                    self.results@,
                    pos.index_spec(),
                ),
                self.emitted_upto@ == old(self).emitted_upto@ + k,
                self.emitted_upto@ <= self.history@.len(),
                self.name == old(self).name,
                self.end_of_frames == old(self).end_of_frames,
                self.found_start == old(self).found_start,
                self.accum == old(self).accum,
                self.history == old(self).history,
                self.last_pos == old(self).last_pos,
                self.frames == old(self).frames,
            decreases self.results@.len(),
        {
            proof {
                assert(self.results@[0] == r0[k]);
                assert(num_passed(self.results@, pos.index_spec()) == 1 + num_passed(
                    self.results@.drop_first(),
                    pos.index_spec(),
                ));
            }
            let ghost rcur = self.results@;
            self.results.remove(0);
            proof {
                assert(self.results@ =~= rcur.drop_first());
                assert(self.results@ =~= r0.skip(k + 1));
                self.emitted_upto@ = self.emitted_upto@ + 1;
                k = k + 1;
                assert(old(self).history@.skip(self.emitted_upto@) =~= old(self).results@.skip(
                    k,
                ));
            }
        }
        proof {
            if self.results@.len() > 0 {
                assert(self.results@[0] == r0[k]);
                assert(num_passed(self.results@, pos.index_spec()) == 0);
            }
            assert(num_passed(r0, pos.index_spec()) == k);
            assert(self.inners() == old(self).inners());
            assert(self.history_spec() == old(self).history_spec());
            assert(self.found_start_spec() == old(self).found_start_spec());
            assert(self.last_index() == old(self).last_index());
            assert(self.frames_spec() == old(self).frames_spec());
            assert(self.results_seq() =~= self.history_spec().skip(self.emitted_upto@)) by {
                assert(old(self).results_seq() =~= old(self).history_spec().skip(
                    old(self).emitted_upto@,
                ));
                assert(old(self).history_spec().skip(old(self).emitted_upto@ + k) =~= old(
                    self,
                ).history_spec().skip(old(self).emitted_upto@).skip(k));
            }
            assert(self.wf());
        }
    }
}

/// Text resolution preference: whenever a span saw at least one exact
/// (`Found`) observation, the resolved text is the join of the exact texts —
/// the uncertain candidates and their confidences play no part.
pub proof fn lemma_found_wins(found: Seq<Seq<char>>, possible: Seq<(Seq<char>, int)>)
    requires
        found.len() > 0,
    ensures
        resolve_spec(found, possible) == join_texts_spec(found),
{
}

/// Span monotonicity: for any input stream, the spans one component
/// commits never overlap and their starts never decrease — each committed
/// span ends no later than the next one starts, and every span is
/// non-empty.
pub proof fn lemma_spans_monotone(a: &TextAccumulator)
    requires
        a.wf(),
    ensures
        forall|i: int, j: int|
            0 <= i < j < a.history_spec().len() ==> (#[trigger] a.history_spec()[i]).end.index_spec() <= (#[trigger] a.history_spec()[j]).start.index_spec(),
        forall|i: int|
            0 <= i < a.history_spec().len() ==> (#[trigger] a.history_spec()[i]).start.index_spec()
                < a.history_spec()[i].end.index_spec(),
{
}

} // verus!
