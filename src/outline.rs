use vstd::prelude::*;

use crate::dom::{parsed_tree, Node};
use crate::heading::{Heading, HeadingM};
use crate::outline_structure::{
    document_structure, lemma_structure_view, smodels, OutlineStructure, StructureM,
};
use crate::sectioning_type::SectioningType;

verus! {

/// A node of an outline: its title, if it has one, and the nodes under it.
pub struct OutlineM {
    pub text: Option<Seq<char>>,
    pub subs: Seq<OutlineM>,
}

/// The table of contents of a document: a title, if the node has one, and the
/// outlines under it in display order.
#[derive(Debug)]
pub struct Outline {
    pub text: Option<String>,
    pub sub_outlines: Vec<Outline>,
}

/// The model of an outline.
pub open spec fn outline_model(o: Outline) -> OutlineM
    decreases o,
{
    OutlineM {
        text: match o.text {
            Some(t) => Some(t@),
            None => None,
        },
        subs: Seq::new(
            o.sub_outlines@.len(),
            |i: int|
                if 0 <= i < o.sub_outlines@.len() {
                    outline_model(o.sub_outlines@[i])
                } else {
                    OutlineM { text: None, subs: Seq::empty() }
                },
        ),
    }
}

impl View for Outline {
    type V = OutlineM;

    open spec fn view(&self) -> OutlineM {
        outline_model(*self)
    }
}

/// The models of a sequence of outlines.
pub open spec fn omodels(s: Seq<Outline>) -> Seq<OutlineM> {
    Seq::new(s.len(), |i: int| s[i]@)
}

pub proof fn lemma_outline_view(o: Outline)
    ensures
        o@ == (OutlineM {
            text: match o.text {
                Some(t) => Some(t@),
                None => None,
            },
            subs: omodels(o.sub_outlines@),
        }),
{
    assert(o@.subs =~= omodels(o.sub_outlines@));
}

/// `s` back to front.
pub open spec fn reversed<A>(s: Seq<A>) -> Seq<A> {
    Seq::new(s.len(), |i: int| s[s.len() - 1 - i])
}

/// An entry of the normalizer's stack: an outline built from one entry of a
/// scope, with the rank it starts at where it came from a heading.
pub struct Entry {
    pub level: Option<u8>,
    pub outline: OutlineM,
}

/// The outlines of a stack's entries.
pub open spec fn outlines(st: Seq<Entry>) -> Seq<OutlineM> {
    Seq::new(st.len(), |i: int| st[i].outline)
}

/// The top entry of `st` leaves the stack when a heading of rank `r` is
/// placed: it has no rank, or a rank deeper than `r`.
pub open spec fn lifts_top(st: Seq<Entry>, r: u8) -> bool {
    st.len() > 0 && (st.last().level is None || st.last().level->0 > r)
}

/// Places a heading of rank `r` and title `text` on `st`, with `kept` the
/// rankless entries already lifted off (top first) and `under` the outlines
/// of the deeper headings already lifted off (in document order): each
/// deeper heading goes under the new one, each rankless entry goes back where
/// it was, and the new heading goes on top.
pub open spec fn place_from(
    st: Seq<Entry>,
    text: Seq<char>,
    r: u8,
    kept: Seq<Entry>,
    under: Seq<OutlineM>,
) -> Seq<Entry>
    decreases st.len(),
{
    if lifts_top(st, r) {
        if st.last().level is None {
            place_from(st.drop_last(), text, r, kept.push(st.last()), under)
        } else {
            place_from(st.drop_last(), text, r, kept, under.push(st.last().outline))
        }
    } else {
        st + reversed(kept) + seq![
            Entry { level: Some(r), outline: OutlineM { text: Some(text), subs: under } },
        ]
    }
}

/// Puts a heading of rank `r` and title `text` on the stack `st`: the
/// headings of deeper rank above the first heading of rank `r` or shallower
/// move under it, in document order.
pub open spec fn place(st: Seq<Entry>, text: Seq<char>, r: u8) -> Seq<Entry> {
    place_from(st, text, r, Seq::empty(), Seq::empty())
}

/// The stack after the last `k` of `subs` are taken from the back.
pub open spec fn stacks(subs: Seq<StructureM>, k: int) -> Seq<Entry>
    decreases subs, k,
{
    if k <= 0 || k > subs.len() {
        Seq::empty()
    } else {
        let prev = stacks(subs, k - 1);
        let sub = subs[subs.len() - k];
        if sub.kind is Heading && sub.heading is Some {
            place(prev, sub.heading->0.text(), sub.heading->0.start_level())
        } else {
            prev.push(Entry { level: None, outline: outline_of(sub) })
        }
    }
}

/// Some heading on the stack has rank `r` or deeper: a heading of rank `r` is
/// then no title over them.
pub open spec fn has_level_at_least(st: Seq<Entry>, r: u8) -> bool {
    exists|i: int| 0 <= i < st.len() && st[i].level is Some && st[i].level->0 >= r
}

/// The title of a node that has no heading of its own.
pub open spec fn untitled(kind: SectioningType) -> Option<Seq<char>> {
    if kind.is_content() {
        Some("Untitled "@ + kind.label())
    } else {
        None
    }
}

/// The outline of a sectioning tree.
pub open spec fn outline_of(s: StructureM) -> OutlineM
    decreases s, 1int,
{
    if s.kind is Heading {
        OutlineM {
            text: match s.heading {
                Some(h) => Some(h.text()),
                None => None,
            },
            subs: Seq::empty(),
        }
    } else {
        let st = stacks(s.subs, s.subs.len() as int);
        match s.heading {
            Some(h) => if has_level_at_least(st, h.start_level()) {
                OutlineM {
                    text: None,
                    subs: reversed(outlines(place(st, h.text(), h.start_level()))),
                }
            } else {
                OutlineM { text: Some(h.text()), subs: reversed(outlines(st)) }
            },
            None => OutlineM { text: untitled(s.kind), subs: reversed(outlines(st)) },
        }
    }
}

/// The models of a stack of entries.
pub open spec fn emodels(s: Seq<(Option<u8>, Outline)>) -> Seq<Entry> {
    Seq::new(s.len(), |i: int| Entry { level: s[i].0, outline: s[i].1@ })
}

proof fn lemma_omodels_push(a: Seq<Outline>, x: Outline)
    ensures
        omodels(a.push(x)) == omodels(a).push(x@),
{
    assert(omodels(a.push(x)) =~= omodels(a).push(x@));
}

proof fn lemma_emodels_push(a: Seq<(Option<u8>, Outline)>, x: (Option<u8>, Outline))
    ensures
        emodels(a.push(x)) == emodels(a).push(Entry { level: x.0, outline: x.1@ }),
{
    assert(emodels(a.push(x)) =~= emodels(a).push(Entry { level: x.0, outline: x.1@ }));
}

proof fn lemma_emodels_drop_last(a: Seq<(Option<u8>, Outline)>)
    requires
        a.len() > 0,
    ensures
        emodels(a.drop_last()) == emodels(a).drop_last(),
        emodels(a).last() == (Entry { level: a.last().0, outline: a.last().1@ }),
{
    assert(emodels(a.drop_last()) =~= emodels(a).drop_last());
}

/// Whether the top entry leaves the stack for a heading of rank `r`.
fn top_lifts(stack: &Vec<(Option<u8>, Outline)>, r: u8) -> (b: bool)
    ensures
        b == lifts_top(emodels(stack@), r),
{
    if stack.len() == 0 {
        return false;
    }
    match stack[stack.len() - 1].0 {
        None => true,
        Some(l) => l > r,
    }
}

/// Puts a heading on the stack, as `place` says.
fn place_heading(stack: &mut Vec<(Option<u8>, Outline)>, text: String, r: u8)
    ensures
        emodels(final(stack)@) == place(emodels(old(stack)@), text@, r),
{
    let ghost target = place(emodels(stack@), text@, r);
    let mut kept: Vec<(Option<u8>, Outline)> = Vec::new();
    let mut under: Vec<Outline> = Vec::new();
    proof {
        assert(emodels(kept@) =~= Seq::<Entry>::empty());
        assert(omodels(under@) =~= Seq::<OutlineM>::empty());
    }
    let mut go = top_lifts(stack, r);
    while go
        invariant
            place_from(emodels(stack@), text@, r, emodels(kept@), omodels(under@)) == target,
            go == lifts_top(emodels(stack@), r),
        decreases stack@.len(),
    {
        let ghost before = stack@;
        let e = stack.pop().unwrap();
        proof {
            assert(before.drop_last() == stack@);
            lemma_emodels_drop_last(before);
        }
        match e.0 {
            None => {
                proof {
                    lemma_emodels_push(kept@, e);
                }
                kept.push(e);
            },
            Some(_) => {
                let (_, o) = e;
                proof {
                    lemma_omodels_push(under@, o);
                }
                under.push(o);
            },
        }
        go = top_lifts(stack, r);
    }
    let ghost base = emodels(stack@);
    let ghost k0 = emodels(kept@);
    while kept.len() > 0
        invariant
            emodels(stack@) == base + reversed(k0).subrange(0, k0.len() - kept@.len()),
            emodels(kept@) == k0.subrange(0, kept@.len() as int),
            kept@.len() <= k0.len(),
        decreases kept@.len(),
    {
        let ghost kb = kept@;
        let e = kept.pop().unwrap();
        proof {
            assert(kb.drop_last() == kept@);
            lemma_emodels_drop_last(kb);
            lemma_emodels_push(stack@, e);
            assert(emodels(kept@) =~= k0.subrange(0, kept@.len() as int));
            assert(base + reversed(k0).subrange(0, k0.len() - kb.len()) + seq![
                Entry { level: e.0, outline: e.1@ },
            ] =~= base + reversed(k0).subrange(0, k0.len() - kept@.len()));
        }
        stack.push(e);
    }
    let node = Outline { text: Some(text), sub_outlines: under };
    proof {
        lemma_outline_view(node);
        lemma_emodels_push(stack@, (Some(r), node));
        assert(reversed(k0).subrange(0, k0.len() as int) =~= reversed(k0));
    }
    stack.push((Some(r), node));
    proof {
        assert(emodels(stack@) =~= target);
    }
}

impl Outline {
    /// The outline of a sectioning tree.
    pub fn from_structure(os: OutlineStructure) -> (r: Outline)
        ensures
            r@ == outline_of(os@),
        decreases os, 1int,
    {
        let ghost whole = os;
        let OutlineStructure { sectioning_type, heading, sub_outline_structures } = os;
        Self::from_parts(sectioning_type, heading, sub_outline_structures, Ghost(whole))
    }

    fn from_parts(
        sectioning_type: SectioningType,
        heading: Option<Heading>,
        subs: Vec<OutlineStructure>,
        os0: Ghost<OutlineStructure>,
    ) -> (r: Outline)
        requires
            os0@.sectioning_type == sectioning_type,
            os0@.heading == heading,
            os0@.sub_outline_structures == subs,
        ensures
            r@ == outline_of(os0@@),
        decreases os0@, 0int,
    {
        let ghost w = os0@;
        proof {
            lemma_structure_view(w);
        }
        let ghost all = w@.subs;
        let mut subs = subs;
        if sectioning_type.is_heading() {
            let text = match heading {
                Some(h) => Some(h.to_text()),
                None => None,
            };
            let r = Outline { text, sub_outlines: Vec::new() };
            proof {
                lemma_outline_view(r);
                assert(omodels(r.sub_outlines@) =~= Seq::<OutlineM>::empty());
            }
            return r;
        }
        let ghost n = subs@.len();
        let mut stack: Vec<(Option<u8>, Outline)> = Vec::new();
        proof {
            assert(emodels(stack@) =~= Seq::<Entry>::empty());
        }
        while subs.len() > 0
            invariant
                w == os0@,
                n == w.sub_outline_structures@.len(),
                all == smodels(w.sub_outline_structures@),
                subs@.len() <= n,
                subs@ == w.sub_outline_structures@.subrange(0, subs@.len() as int),
                emodels(stack@) == stacks(all, n - subs@.len()),
            decreases subs@.len(),
        {
            let ghost k = n - subs@.len();
            let ghost j = subs@.len() - 1;
            let sub = subs.pop().unwrap();
            proof {
                assert(sub == w.sub_outline_structures@[j]);
                assert(all[n - (k + 1)] == sub@);
                lemma_structure_view(sub);
                assert(subs@ =~= w.sub_outline_structures@.subrange(0, subs@.len() as int));
            }
            if sub.sectioning_type.is_heading() && sub.heading.is_some() {
                let OutlineStructure { heading, .. } = sub;
                let h = heading.unwrap();
                let level = h.get_start_level();
                let text = h.to_text();
                place_heading(&mut stack, text, level);
            } else {
                proof {
                    vstd::std_specs::vec::axiom_vec_index_decreases(w.sub_outline_structures, j);
                    assert(decreases_to!(w => w.sub_outline_structures));
                    assert(decreases_to!(w => sub));
                }
                let o = Outline::from_structure(sub);
                proof {
                    lemma_emodels_push(stack@, (None, o));
                }
                stack.push((None, o));
            }
        }
        let text = match heading {
            Some(h) => {
                let r = h.get_start_level();
                let mut deeper = false;
                let mut i: usize = 0;
                while i < stack.len()
                    invariant
                        i <= stack@.len(),
                        deeper == exists|j: int|
                            0 <= j < i && stack@[j].0 is Some && stack@[j].0->0 >= r,
                    decreases stack@.len() - i,
                {
                    if let Some(l) = stack[i].0 {
                        if l >= r {
                            deeper = true;
                        }
                    }
                    i = i + 1;
                }
                proof {
                    let em = emodels(stack@);
                    if deeper {
                        let j = choose|j: int| 0 <= j < i && stack@[j].0 is Some && stack@[j].0->0 >= r;
                        assert(em[j].level == stack@[j].0);
                    } else {
                        assert forall|j: int| 0 <= j < em.len() && em[j].level is Some implies em[j].level->0 < r by {
                            assert(em[j].level == stack@[j].0);
                        }
                    }
                    assert(deeper == has_level_at_least(em, r));
                }
                let t = h.to_text();
                if deeper {
                    place_heading(&mut stack, t, r);
                    None
                } else {
                    Some(t)
                }
            },
            None => {
                if sectioning_type.is_sectioning_content_type() {
                    let mut t = String::from_str("Untitled ");
                    t.append(sectioning_type.as_str());
                    Some(t)
                } else {
                    None
                }
            },
        };
        let ghost top = outlines(emodels(stack@));
        let mut sub_outlines: Vec<Outline> = Vec::new();
        while stack.len() > 0
            invariant
                stack@.len() <= top.len(),
                outlines(emodels(stack@)) == top.subrange(0, stack@.len() as int),
                omodels(sub_outlines@) == reversed(top).subrange(0, top.len() - stack@.len()),
            decreases stack@.len(),
        {
            let ghost sb = stack@;
            let e = stack.pop().unwrap();
            let (_, o) = e;
            proof {
                assert(sb.drop_last() == stack@);
                lemma_emodels_drop_last(sb);
                assert(outlines(emodels(sb))[sb.len() - 1] == o@);
                assert(o@ == top[stack@.len() as int]);
                assert(outlines(emodels(stack@)) =~= top.subrange(0, stack@.len() as int));
                lemma_omodels_push(sub_outlines@, o);
                assert(reversed(top).subrange(0, top.len() - stack@.len() - 1).push(o@) =~= reversed(
                    top,
                ).subrange(0, top.len() - stack@.len()));
            }
            sub_outlines.push(o);
        }
        let r = Outline { text, sub_outlines };
        proof {
            lemma_outline_view(r);
            assert(omodels(r.sub_outlines@) =~= reversed(top));
        }
        r
    }
}

/// The decimal digit `d`.
pub open spec fn digit_char(d: nat) -> char {
    seq!['0', '1', '2', '3', '4', '5', '6', '7', '8', '9'][d as int]
}

/// The decimal numeral of `n`.
pub open spec fn decimal(n: nat) -> Seq<char>
    decreases n,
{
    if n < 10 {
        seq![digit_char(n)]
    } else {
        decimal(n / 10) + seq![digit_char(n % 10)]
    }
}

/// How many decimal digits `n` has (one for zero).
pub open spec fn digits(n: nat) -> nat
    decreases n,
{
    if n < 10 {
        1
    } else {
        1 + digits(n / 10)
    }
}

/// `n` spaces.
pub open spec fn spaces(n: nat) -> Seq<char> {
    Seq::new(n, |i: int| ' ')
}

/// What comes before the number of an entry: its indent, after a line break
/// unless the entry is the first line of the whole text (`started` says that
/// something is written before it).
pub open spec fn line_start(started: bool, indent: nat) -> Seq<char> {
    if started {
        seq!['\n'] + spaces(indent)
    } else {
        spaces(indent)
    }
}

/// The text of outline `o`, the `number`-th among its siblings, indented by
/// `indent`, where `started` says that text is written before it: a titled
/// node gives one line, `<number>. <title>`, and its children are indented
/// past its number; an untitled node gives no line and its children stand at
/// its own indent.
pub open spec fn render(o: OutlineM, number: nat, indent: nat, started: bool) -> Seq<char>
    decreases o, 1int,
{
    match o.text {
        Some(t) => line_start(started, indent) + decimal(number) + seq!['.', ' '] + t + render_subs(
            o.subs,
            o.subs.len() as int,
            indent + digits(o.subs.len()) + 3,
            true,
        ),
        None => render_subs(o.subs, o.subs.len() as int, indent, started),
    }
}

/// The texts of the first `k` of `subs`, numbered from one.
pub open spec fn render_subs(subs: Seq<OutlineM>, k: int, indent: nat, started: bool) -> Seq<
    char,
>
    decreases subs, k,
{
    if k <= 0 || k > subs.len() {
        Seq::empty()
    } else {
        let prev = render_subs(subs, k - 1, indent, started);
        prev + render(subs[k - 1], k as nat, indent, started || prev.len() > 0)
    }
}

/// How many levels the outline has.
pub open spec fn height(o: OutlineM) -> nat
    decreases o, 1int,
{
    1 + max_height(o.subs, o.subs.len() as int)
}

/// The greatest height among the first `k` of `subs`.
pub open spec fn max_height(subs: Seq<OutlineM>, k: int) -> nat
    decreases subs, k,
{
    if k <= 0 || k > subs.len() {
        0
    } else {
        let a = max_height(subs, k - 1);
        let b = height(subs[k - 1]);
        if a >= b {
            a
        } else {
            b
        }
    }
}

proof fn lemma_max_height(subs: Seq<OutlineM>, k: int, i: int)
    requires
        0 <= i < k <= subs.len(),
    ensures
        height(subs[i]) <= max_height(subs, k),
    decreases k,
{
    if i < k - 1 {
        lemma_max_height(subs, k - 1, i);
    }
}

/// Ten to the power `k`.
pub open spec fn pow10(k: nat) -> nat
    decreases k,
{
    if k == 0 {
        1
    } else {
        10 * pow10((k - 1) as nat)
    }
}

proof fn lemma_digits_below(n: nat, k: nat)
    requires
        k >= 1,
        n < pow10(k),
    ensures
        digits(n) <= k,
    decreases k,
{
    if n >= 10 {
        if k == 1 {
            assert(pow10(1) == 10) by {
                reveal_with_fuel(pow10, 2);
            }
        } else {
            lemma_digits_below(n / 10, (k - 1) as nat);
        }
    }
}

proof fn lemma_digits_of_usize(n: usize)
    ensures
        digits(n as nat) <= 20,
{
    assert(pow10(20) == 100000000000000000000nat) by {
        reveal_with_fuel(pow10, 21);
    }
    lemma_digits_below(n as nat, 20);
}

/// The numeral of a digit.
fn digit_str(d: usize) -> (r: &'static str)
    requires
        d < 10,
    ensures
        r@ == seq![digit_char(d as nat)],
{
    proof {
        reveal_strlit("0");
        reveal_strlit("1");
        reveal_strlit("2");
        reveal_strlit("3");
        reveal_strlit("4");
        reveal_strlit("5");
        reveal_strlit("6");
        reveal_strlit("7");
        reveal_strlit("8");
        reveal_strlit("9");
    }
    if d == 0 {
        "0"
    } else if d == 1 {
        "1"
    } else if d == 2 {
        "2"
    } else if d == 3 {
        "3"
    } else if d == 4 {
        "4"
    } else if d == 5 {
        "5"
    } else if d == 6 {
        "6"
    } else if d == 7 {
        "7"
    } else if d == 8 {
        "8"
    } else {
        "9"
    }
}

/// Appends the decimal numeral of `n`.
fn push_decimal(out: &mut String, n: usize)
    ensures
        final(out)@ == old(out)@ + decimal(n as nat),
    decreases n,
{
    if n >= 10 {
        push_decimal(out, n / 10);
        out.append(digit_str(n % 10));
        assert(final(out)@ =~= old(out)@ + decimal(n as nat));
    } else {
        out.append(digit_str(n));
    }
}

/// How many decimal digits `n` has (one for zero).
pub fn count_digit(n: usize) -> (r: usize)
    ensures
        r == digits(n as nat),
    decreases n,
{
    proof {
        lemma_digits_of_usize(n);
    }
    if n < 10 {
        1
    } else {
        1 + count_digit(n / 10)
    }
}

/// Appends the text of `outline`, the `number`-th among its siblings,
/// indented by `indent`; `started` says that text is written before it.
/// Returns whether text is written now.
pub fn format(out: &mut String, outline: &Outline, number: usize, indent: usize, started: bool) -> (r:
    bool)
    requires
        indent + 24 * height(outline@) <= usize::MAX,
    ensures
        final(out)@ == old(out)@ + render(outline@, number as nat, indent as nat, started),
        r == (started || render(outline@, number as nat, indent as nat, started).len() > 0),
    decreases outline,
{
    proof {
        lemma_outline_view(*outline);
        reveal_strlit("\n");
        reveal_strlit(". ");
        reveal_strlit(" ");
    }
    let ghost start = out@;
    let (new_indent, sub_started) = match &outline.text {
        Some(text) => {
            if started {
                out.append("\n");
            }
            let ghost lead = out@;
            let mut i: usize = 0;
            while i < indent
                invariant
                    i <= indent,
                    out@ == lead + spaces(i as nat),
                decreases indent - i,
            {
                proof {
                    reveal_strlit(" ");
                }
                out.append(" ");
                assert(out@ =~= lead + spaces((i + 1) as nat));
                i = i + 1;
            }
            proof {
                assert(out@ =~= start + line_start(started, indent as nat));
            }
            push_decimal(out, number);
            out.append(". ");
            out.append(text.as_str());
            let len = outline.sub_outlines.len();
            proof {
                lemma_digits_of_usize(len);
            }
            (indent + count_digit(len) + 3, true)
        },
        None => (indent, started),
    };
    let ghost subs = outline@.subs;
    let ghost head = out@;
    let mut now = sub_started;
    let mut i: usize = 0;
    while i < outline.sub_outlines.len()
        invariant
            subs == outline@.subs,
            subs == omodels(outline.sub_outlines@),
            i <= subs.len(),
            new_indent <= indent + 23,
            indent + 24 * height(outline@) <= usize::MAX,
            height(outline@) == 1 + max_height(subs, subs.len() as int),
            out@ == head + render_subs(subs, i as int, new_indent as nat, sub_started),
            now == (sub_started || render_subs(subs, i as int, new_indent as nat, sub_started).len() > 0),
        decreases subs.len() - i,
    {
        proof {
            lemma_max_height(subs, subs.len() as int, i as int);
            assert(subs[i as int] == outline.sub_outlines@[i as int]@);
            vstd::std_specs::vec::axiom_vec_index_decreases(outline.sub_outlines, i as int);
        }
        now = format(out, &outline.sub_outlines[i], i + 1, new_indent, now);
        proof {
            assert(out@ =~= head + render_subs(subs, i + 1, new_indent as nat, sub_started));
        }
        i = i + 1;
    }
    proof {
        assert(out@ =~= start + render(outline@, number as nat, indent as nat, started));
    }
    now || started
}

impl Default for Outline {
    /// An untitled outline with nothing in it.
    fn default() -> (r: Outline)
        ensures
            r@ == (OutlineM { text: None, subs: Seq::empty() }),
    {
        let r = Outline { text: None, sub_outlines: Vec::new() };
        proof {
            lemma_outline_view(r);
            assert(omodels(r.sub_outlines@) =~= Seq::<OutlineM>::empty());
        }
        r
    }
}

impl Outline {
    /// The outline of a document tree, read down to depth `max_depth`.
    pub fn from_document(node: &Node, max_depth: usize) -> (r: Outline)
        ensures
            r@ == outline_of(document_structure(*node, max_depth as int)),
    {
        Outline::from_structure(OutlineStructure::from_document(node, max_depth))
    }

    /// Parses `html` and builds the outline of the document, read down to
    /// depth `max_depth`.
    pub fn parse_html(html: &str, max_depth: usize) -> (r: Outline)
        requires
            html@.len() <= 0x3fff_ffff,
        ensures
            r@ == outline_of(document_structure(parsed_tree(html@), max_depth as int)),
    {
        Outline::from_structure(OutlineStructure::parse_html(html, max_depth))
    }

    /// The outline as text: one numbered line for each titled node.
    pub fn to_text(&self) -> (r: String)
        requires
            24 * height(self@) <= usize::MAX,
        ensures
            r@ == render(self@, 1, 0, false),
    {
        let mut out = String::new();
        let _ = format(&mut out, self, 1, 0, false);
        assert(out@ =~= render(self@, 1, 0, false));
        out
    }
}

} // verus!
