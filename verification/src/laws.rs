//! General laws of the environment, proved over the model transitions that
//! the executable operations refine.

use vstd::prelude::*;

verus! {

use crate::model::{
    is_space_char, lemma_declare_sorts_wf, lemma_declare_sort_wf, lemma_read_extends_trans,
    lemma_read_frame, lemma_reparse, read_extends, same_symbols, scan_chars, scan_init,
    scan_step, spec_declare_axiom, spec_declare_function, spec_declare_sort, spec_read,
    lemma_find_first_distinct, spec_read_args, spec_render, spec_render_args, spec_tokens,
    spec_trim, trim_back, trim_front, wf_model, wf_node_at, ErrModel, Model, Node, Scan,
};

/// A plain identifier: nonempty, with no parenthesis and no whitespace.
pub open spec fn atom(w: Seq<char>) -> bool {
    w.len() > 0 && forall|k: int|
        0 <= k < w.len() ==> #[trigger] w[k] != '(' && w[k] != ')' && !is_space_char(w[k])
}

/// Every declared function name is a plain identifier.
pub open spec fn atoms_model(m: Model) -> bool {
    forall|i: int| 0 <= i < m.fun_names.len() ==> atom(#[trigger] m.fun_names[i])
}

/// Scanning a concatenation scans the two parts in turn.
proof fn lemma_scan_concat(st: Scan, a: Seq<char>, b: Seq<char>)
    ensures
        scan_chars(st, a + b) == scan_chars(scan_chars(st, a), b),
    decreases a.len(),
{
    if a.len() == 0 {
        assert(a + b =~= b);
    } else {
        assert((a + b).first() == a.first());
        assert((a + b).drop_first() =~= a.drop_first() + b);
        lemma_scan_concat(scan_step(st, a.first()), a.drop_first(), b);
    }
}

/// Characters that are neither parentheses nor the separating space are
/// simply accumulated, whatever the depth.
proof fn lemma_scan_plain(st: Scan, w: Seq<char>)
    requires
        forall|k: int| 0 <= k < w.len() ==> #[trigger] w[k] != '(' && w[k] != ')' && w[k] != ' ',
    ensures
        scan_chars(st, w).depth == st.depth,
        scan_chars(st, w).acc == st.acc + w,
        scan_chars(st, w).toks == st.toks,
    decreases w.len(),
{
    if w.len() == 0 {
        assert(st.acc + w =~= st.acc);
    } else {
        let c = w.first();
        let st1 = scan_step(st, c);
        assert(st1.acc == st.acc.push(c));
        lemma_scan_plain(st1, w.drop_first());
        assert(st.acc.push(c) + w.drop_first() =~= st.acc + w);
    }
}

/// Scanning a single character is one step.
proof fn lemma_scan_one(st: Scan, c: char)
    ensures
        scan_chars(st, seq![c]) == scan_step(st, c),
{
    let w = seq![c];
    assert(w.len() == 1);
    assert(w.first() == c);
    assert(w.drop_first().len() == 0);
    assert(scan_chars(st, w) == scan_chars(scan_step(st, c), w.drop_first()));
    assert(scan_chars(scan_step(st, c), w.drop_first()) == scan_step(st, c));
}

/// Inside an enclosing parenthesis (depth at least one), a rendered term is
/// scanned as plain token text: it is appended whole to the accumulator, the
/// depth returns to what it was, and no token boundary fires inside it.
proof fn lemma_render_neutral(m: Model, t: int, st: Scan)
    requires
        wf_model(m),
        atoms_model(m),
        0 <= t < m.nodes.len(),
        st.depth >= 1,
    ensures
        scan_chars(st, spec_render(m, t)).depth == st.depth,
        scan_chars(st, spec_render(m, t)).acc == st.acc + spec_render(m, t),
        scan_chars(st, spec_render(m, t)).toks == st.toks,
    decreases t, 1int, 0int,
{
    let n = m.nodes[t];
    assert(wf_node_at(m, t));
    let name = m.fun_names[n.f];
    assert(atom(name));
    if n.children.len() == 0 {
        lemma_scan_plain(st, name);
    } else {
        let args = spec_render_args(m, n.children, t);
        let u = spec_render(m, t);
        assert(u =~= seq!['('] + (name + (args + seq![')'])));
        lemma_scan_concat(st, seq!['('], name + (args + seq![')']));
        let st1 = scan_chars(st, seq!['(']);
        lemma_scan_one(st, '(');
        assert(st1 == scan_step(st, '('));
        assert(st1.depth == st.depth + 1 && st1.acc == st.acc.push('(') && st1.toks == st.toks);
        lemma_scan_concat(st1, name, args + seq![')']);
        let st2 = scan_chars(st1, name);
        lemma_scan_plain(st1, name);
        lemma_scan_concat(st2, args, seq![')']);
        let st3 = scan_chars(st2, args);
        lemma_render_args_neutral(m, n.children, t, st2);
        let st4 = scan_chars(st3, seq![')']);
        lemma_scan_one(st3, ')');
        assert(st4 == scan_step(st3, ')'));
        assert(st3.depth == st.depth + 1 >= 2);
        assert(st4.depth == st.depth && st4.acc == st3.acc.push(')') && st4.toks == st.toks);
        assert(st4.acc =~= st.acc + u);
    }
}

/// The space-separated rendered children, scanned at depth at least two
/// (inside the compound's own parenthesis and an enclosing one), are plain
/// accumulated text as well.
proof fn lemma_render_args_neutral(m: Model, cs: Seq<int>, b: int, st: Scan)
    requires
        wf_model(m),
        atoms_model(m),
        b <= m.nodes.len(),
        forall|k: int| 0 <= k < cs.len() ==> 0 <= #[trigger] cs[k] < b,
        st.depth >= 2,
    ensures
        scan_chars(st, spec_render_args(m, cs, b)).depth == st.depth,
        scan_chars(st, spec_render_args(m, cs, b)).acc == st.acc + spec_render_args(m, cs, b),
        scan_chars(st, spec_render_args(m, cs, b)).toks == st.toks,
    decreases b, 0int, cs.len(),
{
    let u = spec_render_args(m, cs, b);
    if cs.len() == 0 {
        assert(st.acc + u =~= st.acc);
    } else {
        let prev = spec_render_args(m, cs.drop_last(), b);
        assert(u =~= prev + (seq![' '] + spec_render(m, cs.last())));
        lemma_scan_concat(st, prev, seq![' '] + spec_render(m, cs.last()));
        let st1 = scan_chars(st, prev);
        lemma_render_args_neutral(m, cs.drop_last(), b, st);
        lemma_scan_concat(st1, seq![' '], spec_render(m, cs.last()));
        let st2 = scan_chars(st1, seq![' ']);
        lemma_scan_one(st1, ' ');
        assert(st2 == scan_step(st1, ' '));
        assert(st2.depth == st.depth && st2.acc == st1.acc.push(' ') && st2.toks == st.toks);
        lemma_render_neutral(m, cs.last(), st2);
        let st3 = scan_chars(st2, spec_render(m, cs.last()));
        assert(st3.acc =~= st.acc + u);
    }
}

/// Scanned at depth exactly one, the rendered children split at exactly
/// their separating spaces: the open accumulator is pushed as a token before
/// each child, and the last child's text is left in the accumulator.
proof fn lemma_scan_args_tokens(m: Model, cs: Seq<int>, b: int, st: Scan)
    requires
        wf_model(m),
        atoms_model(m),
        b <= m.nodes.len(),
        forall|k: int| 0 <= k < cs.len() ==> 0 <= #[trigger] cs[k] < b,
        st.depth == 1,
    ensures
        scan_chars(st, spec_render_args(m, cs, b)).depth == 1,
        cs.len() == 0 ==> scan_chars(st, spec_render_args(m, cs, b)) == st,
        cs.len() > 0 ==> scan_chars(st, spec_render_args(m, cs, b)).acc == spec_render(
            m,
            cs.last(),
        ) && scan_chars(st, spec_render_args(m, cs, b)).toks == st.toks.push(st.acc)
            + cs.drop_last().map_values(|c: int| spec_render(m, c)),
    decreases cs.len(),
{
    let u = spec_render_args(m, cs, b);
    if cs.len() == 0 {
    } else {
        let prev = spec_render_args(m, cs.drop_last(), b);
        assert(u =~= prev + (seq![' '] + spec_render(m, cs.last())));
        lemma_scan_concat(st, prev, seq![' '] + spec_render(m, cs.last()));
        let st1 = scan_chars(st, prev);
        lemma_scan_args_tokens(m, cs.drop_last(), b, st);
        lemma_scan_concat(st1, seq![' '], spec_render(m, cs.last()));
        let st2 = scan_chars(st1, seq![' ']);
        lemma_scan_one(st1, ' ');
        assert(st2 == scan_step(st1, ' '));
        assert(st2.depth == 1 && st2.acc =~= Seq::<char>::empty() && st2.toks == st1.toks.push(
            st1.acc,
        ));
        lemma_render_neutral(m, cs.last(), st2);
        let st3 = scan_chars(st2, spec_render(m, cs.last()));
        assert(st3.acc =~= spec_render(m, cs.last()));
        if cs.drop_last().len() == 0 {
            assert(st3.toks =~= st.toks.push(st.acc) + cs.drop_last().map_values(
                |c: int| spec_render(m, c),
            ));
        } else {
            let dl = cs.drop_last();
            assert(st1.toks == st.toks.push(st.acc) + dl.drop_last().map_values(
                |c: int| spec_render(m, c),
            ));
            assert(st1.acc == spec_render(m, dl.last()));
            assert(forall|k: int| 0 <= k < dl.len() - 1 ==> #[trigger] dl.drop_last()[k] == dl[k]);
            assert(dl.map_values(|c: int| spec_render(m, c)) =~= dl.drop_last().map_values(
                |c: int| spec_render(m, c),
            ).push(spec_render(m, dl.last())));
            assert(st3.toks =~= st.toks.push(st.acc) + dl.map_values(|c: int| spec_render(m, c)));
        }
    }
}

/// A nonempty text with no whitespace at either end trims to itself.
proof fn lemma_trim_id(u: Seq<char>)
    requires
        u.len() > 0,
        !is_space_char(u.first()),
        !is_space_char(u.last()),
    ensures
        spec_trim(u) == u,
{
    assert(trim_front(u) == u);
    assert(trim_back(u) == u);
}

/// Parsing the rendered children in order re-finds every child handle and
/// changes nothing: the pool already holds every subterm.
proof fn lemma_read_rendered_args(m: Model, cs: Seq<int>, b: int)
    requires
        wf_model(m),
        atoms_model(m),
        b <= m.nodes.len(),
        forall|k: int| 0 <= k < cs.len() ==> 0 <= #[trigger] cs[k] < b,
    ensures
        spec_read_args(m, cs.map_values(|c: int| spec_render(m, c))) == (
            m,
            Ok::<Seq<int>, ErrModel>(cs),
        ),
    decreases b, 0int, cs.len(),
{
    let toks = cs.map_values(|c: int| spec_render(m, c));
    if cs.len() == 0 {
        assert(toks.len() == 0);
        assert(Seq::<int>::empty() =~= cs);
    } else {
        assert(toks.first() == spec_render(m, cs.first()));
        law_render_reparse(m, cs.first());
        assert(toks.drop_first() =~= cs.drop_first().map_values(|c: int| spec_render(m, c)));
        lemma_read_rendered_args(m, cs.drop_first(), b);
        assert(seq![cs.first()] + cs.drop_first() =~= cs);
    }
}

/// Render/re-parse round trip: in an environment whose function names are
/// all plain identifiers, parsing the rendered text of any pooled term
/// yields that very canonical handle and changes nothing.
pub proof fn law_render_reparse(m: Model, t: int)
    requires
        wf_model(m),
        atoms_model(m),
        0 <= t < m.nodes.len(),
    ensures
        spec_read(m, spec_render(m, t)) == (m, Ok::<int, ErrModel>(t)),
    decreases t, 1int, 0int,
{
    let n = m.nodes[t];
    assert(wf_node_at(m, t));
    let name = m.fun_names[n.f];
    assert(atom(name));
    let u = spec_render(m, t);
    if n.children.len() == 0 {
        assert(u == name);
        assert(!is_space_char(u.first()) && u.first() != '(') by {
            assert(u[0] != '(' && !is_space_char(u[0]));
        }
        assert(!is_space_char(u.last())) by {
            assert(u[u.len() - 1] != '(' && !is_space_char(u[u.len() - 1]));
        }
        lemma_trim_id(u);
        lemma_find_first_distinct(m.fun_names, name, n.f);
        assert(n.children =~= Seq::<int>::empty());
        assert((Node { f: n.f, children: Seq::<int>::empty() }) == n);
        lemma_find_first_distinct(m.nodes, n, t);
    } else {
        let args = spec_render_args(m, n.children, t);
        assert(u =~= seq!['('] + (name + (args + seq![')'])));
        assert(u.first() == '(');
        assert(u.last() == ')');
        lemma_trim_id(u);
        // Tokenize the rendered text.
        lemma_scan_concat(scan_init(), seq!['('], name + (args + seq![')']));
        lemma_scan_one(scan_init(), '(');
        let st0 = scan_step(scan_init(), '(');
        assert(st0 == (Scan { depth: 1, acc: Seq::<char>::empty(), toks: Seq::<Seq<char>>::empty() }));
        lemma_scan_concat(st0, name, args + seq![')']);
        let st1 = scan_chars(st0, name);
        lemma_scan_plain(st0, name);
        assert(st1.depth == 1 && st1.toks =~= Seq::<Seq<char>>::empty());
        assert(st1.acc =~= name);
        lemma_scan_concat(st1, args, seq![')']);
        let st2 = scan_chars(st1, args);
        lemma_scan_args_tokens(m, n.children, t, st1);
        let st3 = scan_chars(st2, seq![')']);
        lemma_scan_one(st2, ')');
        assert(st3 == scan_step(st2, ')'));
        let renders = n.children.map_values(|c: int| spec_render(m, c));
        assert(st2.acc == spec_render(m, n.children.last()));
        assert(st2.toks =~= seq![name] + n.children.drop_last().map_values(
            |c: int| spec_render(m, c),
        ));
        assert(st3.toks == st2.toks.push(st2.acc));
        assert(forall|k: int|
            0 <= k < n.children.len() - 1 ==> #[trigger] n.children.drop_last()[k]
                == n.children[k]);
        assert(renders =~= n.children.drop_last().map_values(|c: int| spec_render(m, c)).push(
            spec_render(m, n.children.last()),
        ));
        let toks = spec_tokens(u);
        assert(toks == st3.toks);
        assert(toks =~= seq![name] + renders);
        assert(toks.len() == 1 + n.children.len());
        assert(toks.first() == name);
        // Parse back: the arguments re-find their handles, the head name
        // re-finds its function, and interning re-finds the node itself.
        assert(toks.drop_first() =~= renders);
        lemma_read_rendered_args(m, n.children, t);
        assert(spec_read_args(m, toks.drop_first()) == (m, Ok::<Seq<int>, ErrModel>(n.children)));
        lemma_find_first_distinct(m.fun_names, name, n.f);
        assert((Node { f: n.f, children: n.children }) == n);
        lemma_find_first_distinct(m.nodes, n, t);
    }
}

/// Round trip for stored axioms: both rendered sides of any stored axiom
/// parse back, against the same environment, to the very handles the axiom
/// stores.
pub proof fn law_axiom_render_round_trip(m: Model, i: int)
    requires
        wf_model(m),
        atoms_model(m),
        0 <= i < m.axioms.len(),
    ensures
        spec_read(m, spec_render(m, m.axioms[i].0)) == (m, Ok::<int, ErrModel>(m.axioms[i].0)),
        spec_read(m, spec_render(m, m.axioms[i].1)) == (m, Ok::<int, ErrModel>(m.axioms[i].1)),
{
    law_render_reparse(m, m.axioms[i].0);
    law_render_reparse(m, m.axioms[i].1);
}

/// Declaring the same sort name twice yields the same table as declaring it
/// once: the second declaration has no effect at all, so the name's id is
/// stable across calls.
pub proof fn law_declare_sort_idempotent(m: Model, name: Seq<char>)
    ensures
        spec_declare_sort(spec_declare_sort(m, name), name) == spec_declare_sort(m, name),
{
    let m1 = spec_declare_sort(m, name);
    if !m.sorts.contains(name) {
        assert(m1.sorts[m.sorts.len() as int] == name);
        assert(m1.sorts.contains(name));
    }
}

/// Declaring a function name that is already a function fails with
/// `AlreadyDeclared`, and the function table — every registered name,
/// signature and result sort — is exactly as it was; only sort declarations
/// (which are idempotent and never fail) may remain.
pub proof fn law_duplicate_function_rejected(
    m: Model,
    name: Seq<char>,
    args: Seq<Seq<char>>,
    result: Seq<char>,
)
    requires
        wf_model(m),
        m.fun_names.contains(name),
    ensures
        ({
            let (m2, r) = spec_declare_function(m, name, args, result);
            &&& r == Err::<(), ErrModel>(ErrModel::AlreadyDeclared(name))
            &&& m2.fun_names == m.fun_names
            &&& m2.fun_args == m.fun_args
            &&& m2.fun_results == m.fun_results
            &&& m2.nodes == m.nodes
            &&& m2.axioms == m.axioms
        }),
{
    lemma_declare_sort_wf(m, result);
    lemma_declare_sorts_wf(spec_declare_sort(m, result), args);
}

/// Interning identity: parsing a text that parses successfully a second
/// time yields the very same canonical handle and leaves the whole
/// environment unchanged.
pub proof fn law_interning_identity(m: Model, s: Seq<char>)
    requires
        wf_model(m),
        spec_read(m, s).1 is Ok,
    ensures
        ({
            let (m1, r) = spec_read(m, s);
            spec_read(m1, s) == (m1, r)
        }),
{
    lemma_read_frame(m, s);
    lemma_reparse(m, spec_read(m, s).0, s);
}

/// Declaring an axiom preserves well-formedness and the symbol table, and
/// only appends to the pools.
proof fn lemma_declare_axiom_wf(m: Model, l: Seq<char>, r: Seq<char>)
    requires
        wf_model(m),
    ensures
        ({
            let (m1, res) = spec_declare_axiom(m, l, r);
            &&& wf_model(m1)
            &&& read_extends(m, m1)
        }),
{
    let (ma, lr) = spec_read(m, l);
    lemma_read_frame(m, l);
    match lr {
        Err(_) => {},
        Ok(hl) => {
            let (mb, rr) = spec_read(ma, r);
            lemma_read_frame(ma, r);
            lemma_read_extends_trans(m, ma, mb);
            match rr {
                Err(_) => {},
                Ok(hr) => {
                    if !mb.axioms.contains((hl, hr)) {
                        let m1 = spec_declare_axiom(m, l, r).0;
                        assert(read_extends(mb, m1));
                        lemma_read_extends_trans(m, mb, m1);
                        assert(0 <= hl < mb.nodes.len());
                        assert(0 <= hr < mb.nodes.len());
                        assert forall|i: int| 0 <= i < m1.axioms.len() implies 0
                            <= #[trigger] m1.axioms[i].0 < m1.nodes.len() && 0 <= m1.axioms[i].1
                            < m1.nodes.len() by {
                            if i < mb.axioms.len() {
                                assert(m1.axioms[i] == mb.axioms[i]);
                            } else {
                                assert(m1.axioms[i] == (hl, hr));
                            }
                        }
                        assert forall|i: int| 0 <= i < m1.nodes.len() implies wf_node_at(
                            m1,
                            i,
                        ) by {
                            assert(wf_node_at(mb, i));
                        }
                    }
                },
            }
        },
    }
}

/// Axiom de-duplication: declaring the same axiom text pair twice stores the
/// pair once — the second call succeeds and changes nothing at all.
pub proof fn law_axiom_deduplicated(m: Model, l: Seq<char>, r: Seq<char>)
    requires
        wf_model(m),
        spec_declare_axiom(m, l, r).1 is Ok,
    ensures
        ({
            let (m1, _) = spec_declare_axiom(m, l, r);
            spec_declare_axiom(m1, l, r) == (m1, Ok::<(), ErrModel>(()))
        }),
{
    let (ma, lr) = spec_read(m, l);
    lemma_read_frame(m, l);
    assert(lr is Ok);
    let hl = lr->Ok_0;
    let (mb, rr) = spec_read(ma, r);
    lemma_read_frame(ma, r);
    assert(rr is Ok);
    let hr = rr->Ok_0;
    let (m1, _) = spec_declare_axiom(m, l, r);
    lemma_declare_axiom_wf(m, l, r);
    assert(read_extends(mb, m1));
    lemma_read_extends_trans(ma, mb, m1);
    lemma_reparse(m, m1, l);
    lemma_reparse(ma, m1, r);
    assert(spec_read(m1, l) == (m1, Ok::<int, ErrModel>(hl)));
    assert(spec_read(m1, r) == (m1, Ok::<int, ErrModel>(hr)));
    if mb.axioms.contains((hl, hr)) {
        assert(m1.axioms.contains((hl, hr)));
    } else {
        assert(m1.axioms[mb.axioms.len() as int] == (hl, hr));
        assert(m1.axioms.contains((hl, hr)));
    }
}

/// Axiom order-sensitivity: after declaring `(l, r)`, declaring the reversed
/// texts `(r, l)` also succeeds, and appends the reversed pair as a second,
/// distinct axiom whenever that reversed pair is not already stored.
pub proof fn law_axiom_order_sensitive(m: Model, l: Seq<char>, r: Seq<char>)
    requires
        wf_model(m),
        spec_declare_axiom(m, l, r).1 is Ok,
    ensures
        ({
            let (m1, _) = spec_declare_axiom(m, l, r);
            let hl = spec_read(m, l).1->Ok_0;
            let hr = spec_read(spec_read(m, l).0, r).1->Ok_0;
            let (m2, res2) = spec_declare_axiom(m1, r, l);
            &&& res2 is Ok
            &&& !m1.axioms.contains((hr, hl)) ==> m2.axioms == m1.axioms.push((hr, hl))
            &&& m1.axioms.contains((hr, hl)) ==> m2 == m1
        }),
{
    let (ma, lr) = spec_read(m, l);
    lemma_read_frame(m, l);
    assert(lr is Ok);
    let hl = lr->Ok_0;
    let (mb, rr) = spec_read(ma, r);
    lemma_read_frame(ma, r);
    assert(rr is Ok);
    let hr = rr->Ok_0;
    let (m1, _) = spec_declare_axiom(m, l, r);
    lemma_declare_axiom_wf(m, l, r);
    assert(read_extends(mb, m1));
    lemma_read_extends_trans(ma, mb, m1);
    lemma_reparse(ma, m1, r);
    lemma_reparse(m, m1, l);
    assert(spec_read(m1, r) == (m1, Ok::<int, ErrModel>(hr)));
    assert(spec_read(m1, l) == (m1, Ok::<int, ErrModel>(hl)));
}

/// Undeclared detection: when the left text does not parse, declaring the
/// axiom fails with that very error and stores nothing — the axiom list is
/// exactly as it was.
pub proof fn law_undeclared_rejected(m: Model, l: Seq<char>, r: Seq<char>)
    requires
        wf_model(m),
        spec_read(m, l).1 is Err,
    ensures
        ({
            let (m2, res) = spec_declare_axiom(m, l, r);
            &&& res == Err::<(), ErrModel>(spec_read(m, l).1->Err_0)
            &&& m2.axioms == m.axioms
            &&& same_symbols(m, m2)
        }),
{
    lemma_read_frame(m, l);
}

} // verus!

