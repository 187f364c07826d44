//! The mathematical model of the environment: a ghost state (sorts, function
//! symbols, interned term nodes, axiom pairs) together with spec-level
//! transition functions for every operation. The executable code in `env`
//! refines these transitions exactly, and the laws in `laws` are proved
//! about them.

use vstd::prelude::*;

verus! {

/// One interned term node: a functor id and the handles of its children.
/// Handles are indices into the node pool; a well-formed pool only lets a
/// node point at strictly earlier nodes.
#[verifier::ext_equal]
pub ghost struct Node {
    pub f: int,
    pub children: Seq<int>,
}

/// The whole environment as mathematics: parallel sequences for the symbol
/// table (a sort id or function id is its position), the term pool, and the
/// ordered axiom list.
#[verifier::ext_equal]
pub ghost struct Model {
    pub sorts: Seq<Seq<char>>,
    pub fun_names: Seq<Seq<char>>,
    pub fun_args: Seq<Seq<int>>,
    pub fun_results: Seq<int>,
    pub nodes: Seq<Node>,
    pub axioms: Seq<(int, int)>,
}

/// The error values an operation can produce, each carrying the offending
/// name. `DeclaredTwice` is reserved: no operation raises it.
pub ghost enum ErrModel {
    Undeclared(Seq<char>),
    AlreadyDeclared(Seq<char>),
    DeclaredTwice(Seq<char>),
}

pub open spec fn empty_model() -> Model {
    Model {
        sorts: Seq::empty(),
        fun_names: Seq::empty(),
        fun_args: Seq::empty(),
        fun_results: Seq::empty(),
        nodes: Seq::empty(),
        axioms: Seq::empty(),
    }
}

/// Index of the first occurrence of `x` in `s`, or -1 if absent.
pub open spec fn find_first<A>(s: Seq<A>, x: A) -> int
    decreases s.len(),
{
    if s.len() == 0 {
        -1
    } else if s[0] == x {
        0
    } else if find_first(s.drop_first(), x) < 0 {
        -1
    } else {
        1 + find_first(s.drop_first(), x)
    }
}

pub proof fn lemma_find_first<A>(s: Seq<A>, x: A)
    ensures
        find_first(s, x) >= 0 <==> s.contains(x),
        find_first(s, x) >= 0 ==> find_first(s, x) < s.len() && s[find_first(s, x)] == x,
        forall|j: int| 0 <= j < find_first(s, x) ==> s[j] != x,
        find_first(s, x) < 0 ==> forall|j: int| 0 <= j < s.len() ==> s[j] != x,
    decreases s.len(),
{
    if s.len() == 0 {
        assert(!s.contains(x));
    } else if s[0] == x {
        assert(s.contains(x));
    } else {
        let t = s.drop_first();
        lemma_find_first(t, x);
        if find_first(t, x) >= 0 {
            assert(s.contains(x)) by {
                assert(t[find_first(t, x)] == s[find_first(t, x) + 1]);
            }
            assert forall|j: int| 0 <= j < find_first(s, x) implies s[j] != x by {
                if j > 0 {
                    assert(s[j] == t[j - 1]);
                }
            }
        } else {
            assert forall|j: int| 0 <= j < s.len() implies s[j] != x by {
                if j > 0 {
                    assert(s[j] == t[j - 1]);
                }
            }
            assert(!s.contains(x));
        }
    }
}

/// If `x` first occurs at position `i`, then `find_first` returns `i`.
pub proof fn lemma_find_first_at<A>(s: Seq<A>, x: A, i: int)
    requires
        0 <= i < s.len(),
        s[i] == x,
        forall|j: int| 0 <= j < i ==> s[j] != x,
    ensures
        find_first(s, x) == i,
{
    lemma_find_first(s, x);
    assert(s.contains(x));
    let r = find_first(s, x);
    if r < i {
        assert(s[r] != x);
    }
    if r > i {
        assert(s[i] != x);
    }
}

/// No two elements of the sequence are equal.
pub open spec fn distinct_seq<A>(s: Seq<A>) -> bool {
    forall|i: int, j: int| 0 <= i < j < s.len() ==> s[i] != s[j]
}

// ---------------------------------------------------------------------------
// Symbol table transitions
// ---------------------------------------------------------------------------

/// Declaring a sort is idempotent: a known name changes nothing, a new name
/// is appended and gets the next id (its position).
pub open spec fn spec_declare_sort(m: Model, name: Seq<char>) -> Model {
    if m.sorts.contains(name) {
        m
    } else {
        Model { sorts: m.sorts.push(name), ..m }
    }
}

/// Declare a list of sorts left to right.
pub open spec fn spec_declare_sorts(m: Model, names: Seq<Seq<char>>) -> Model
    decreases names.len(),
{
    if names.len() == 0 {
        m
    } else {
        spec_declare_sorts(spec_declare_sort(m, names.first()), names.drop_first())
    }
}

/// Declaring a function first declares its result sort and then its argument
/// sorts (so new sort names referenced inline become declared), and only then
/// registers the function, unless the name is already a function, in which
/// case the call fails and the function table is unchanged (the sorts stay
/// declared).
pub open spec fn spec_declare_function(
    m: Model,
    name: Seq<char>,
    args: Seq<Seq<char>>,
    result: Seq<char>,
) -> (Model, Result<(), ErrModel>) {
    let m1 = spec_declare_sorts(spec_declare_sort(m, result), args);
    if m1.fun_names.contains(name) {
        (m1, Err(ErrModel::AlreadyDeclared(name)))
    } else {
        (
            Model {
                fun_names: m1.fun_names.push(name),
                fun_args: m1.fun_args.push(
                    args.map_values(|a: Seq<char>| find_first(m1.sorts, a)),
                ),
                fun_results: m1.fun_results.push(find_first(m1.sorts, result)),
                ..m1
            },
            Ok(()),
        )
    }
}

// ---------------------------------------------------------------------------
// Term pool
// ---------------------------------------------------------------------------

/// Content-addressed interning: return the handle of the structurally equal
/// node if one exists, otherwise append the node and return its new handle.
pub open spec fn spec_intern(m: Model, n: Node) -> (Model, int) {
    let i = find_first(m.nodes, n);
    if i >= 0 {
        (m, i)
    } else {
        (Model { nodes: m.nodes.push(n), ..m }, m.nodes.len() as int)
    }
}

// ---------------------------------------------------------------------------
// Well-formedness
// ---------------------------------------------------------------------------

/// Every node names a declared function and only points at earlier nodes.
pub open spec fn wf_nodes(m: Model) -> bool {
    forall|i: int| 0 <= i < m.nodes.len() ==> wf_node_at(m, i)
}

pub open spec fn wf_node_at(m: Model, i: int) -> bool {
    &&& 0 <= m.nodes[i].f < m.fun_names.len()
    &&& forall|k: int|
        0 <= k < m.nodes[i].children.len() ==> 0 <= #[trigger] m.nodes[i].children[k] < i
}

pub open spec fn wf_model(m: Model) -> bool {
    &&& distinct_seq(m.sorts)
    &&& distinct_seq(m.fun_names)
    &&& m.fun_args.len() == m.fun_names.len()
    &&& m.fun_results.len() == m.fun_names.len()
    &&& forall|i: int|
        0 <= i < m.fun_results.len() ==> 0 <= #[trigger] m.fun_results[i] < m.sorts.len()
    &&& forall|i: int, k: int|
        0 <= i < m.fun_args.len() && 0 <= k < m.fun_args[i].len() ==> 0 <= #[trigger] m.fun_args[i][k]
            < m.sorts.len()
    &&& wf_nodes(m)
    &&& distinct_seq(m.nodes)
    &&& forall|i: int|
        0 <= i < m.axioms.len() ==> 0 <= #[trigger] m.axioms[i].0 < m.nodes.len()
            && 0 <= m.axioms[i].1 < m.nodes.len()
}

pub proof fn lemma_wf_empty()
    ensures
        wf_model(empty_model()),
{
}

/// Declaring sorts only touches the sort table and keeps it distinct; names
/// already present stay at their positions.
pub proof fn lemma_declare_sort_wf(m: Model, name: Seq<char>)
    requires
        wf_model(m),
    ensures
        wf_model(spec_declare_sort(m, name)),
        spec_declare_sort(m, name).fun_names == m.fun_names,
        spec_declare_sort(m, name).fun_args == m.fun_args,
        spec_declare_sort(m, name).fun_results == m.fun_results,
        spec_declare_sort(m, name).nodes == m.nodes,
        spec_declare_sort(m, name).axioms == m.axioms,
        spec_declare_sort(m, name).sorts.contains(name),
        m.sorts.len() <= spec_declare_sort(m, name).sorts.len(),
        forall|j: int| 0 <= j < m.sorts.len() ==> spec_declare_sort(m, name).sorts[j] == m.sorts[j],
{
    let m1 = spec_declare_sort(m, name);
    if !m.sorts.contains(name) {
        assert(m1.sorts[m.sorts.len() as int] == name);
        assert forall|i: int, j: int| 0 <= i < j < m1.sorts.len() implies m1.sorts[i]
            != m1.sorts[j] by {
            if j < m.sorts.len() {
                assert(m1.sorts[i] == m.sorts[i] && m1.sorts[j] == m.sorts[j]);
            } else {
                assert(m1.sorts[j] == name);
                assert(m1.sorts[i] == m.sorts[i]);
                assert(!m.sorts.contains(name));
            }
        }
        assert forall|i: int| 0 <= i < m1.nodes.len() implies wf_node_at(m1, i) by {
            assert(wf_node_at(m, i));
        }
    }
}

pub proof fn lemma_declare_sorts_wf(m: Model, names: Seq<Seq<char>>)
    requires
        wf_model(m),
    ensures
        wf_model(spec_declare_sorts(m, names)),
        spec_declare_sorts(m, names).fun_names == m.fun_names,
        spec_declare_sorts(m, names).fun_args == m.fun_args,
        spec_declare_sorts(m, names).fun_results == m.fun_results,
        spec_declare_sorts(m, names).nodes == m.nodes,
        spec_declare_sorts(m, names).axioms == m.axioms,
        m.sorts.len() <= spec_declare_sorts(m, names).sorts.len(),
        forall|j: int|
            0 <= j < m.sorts.len() ==> spec_declare_sorts(m, names).sorts[j] == m.sorts[j],
        forall|s: Seq<char>|
            m.sorts.contains(s) ==> spec_declare_sorts(m, names).sorts.contains(s),
        forall|k: int|
            0 <= k < names.len() ==> spec_declare_sorts(m, names).sorts.contains(#[trigger] names[k]),
    decreases names.len(),
{
    let mr = spec_declare_sorts(m, names);
    assert(forall|s: Seq<char>| m.sorts.contains(s) ==> mr.sorts.contains(s)) by {
        lemma_declare_sorts_keeps(m, names);
    }
    if names.len() > 0 {
        let m1 = spec_declare_sort(m, names.first());
        lemma_declare_sort_wf(m, names.first());
        lemma_declare_sorts_wf(m1, names.drop_first());
        assert(m1.sorts.contains(names.first()));
        lemma_declare_sorts_keeps(m1, names.drop_first());
        assert(mr.sorts.contains(names[0]));
        assert(forall|k: int|
            0 <= k < names.drop_first().len() ==> mr.sorts.contains(
                #[trigger] names.drop_first()[k],
            ));
        assert(forall|k: int| 1 <= k < names.len() ==> names[k] == names.drop_first()[k - 1]);
    }
}

// ---------------------------------------------------------------------------
// Trimming and tokenization
// ---------------------------------------------------------------------------

/// The whitespace characters the parser strips from the ends of its input.
pub open spec fn is_space_char(c: char) -> bool {
    c == ' ' || c == '\t' || c == '\n' || c == '\r'
}

pub open spec fn trim_front(s: Seq<char>) -> Seq<char>
    decreases s.len(),
{
    if s.len() > 0 && is_space_char(s.first()) {
        trim_front(s.drop_first())
    } else {
        s
    }
}

pub open spec fn trim_back(s: Seq<char>) -> Seq<char>
    decreases s.len(),
{
    if s.len() > 0 && is_space_char(s.last()) {
        trim_back(s.drop_last())
    } else {
        s
    }
}

pub open spec fn spec_trim(s: Seq<char>) -> Seq<char> {
    trim_back(trim_front(s))
}

pub proof fn lemma_trim_len(s: Seq<char>)
    ensures
        spec_trim(s).len() <= s.len(),
{
    lemma_trim_front_len(s);
    lemma_trim_back_len(trim_front(s));
}

pub proof fn lemma_trim_front_len(s: Seq<char>)
    ensures
        trim_front(s).len() <= s.len(),
    decreases s.len(),
{
    if s.len() > 0 && is_space_char(s.first()) {
        lemma_trim_front_len(s.drop_first());
    }
}

pub proof fn lemma_trim_back_len(s: Seq<char>)
    ensures
        trim_back(s).len() <= s.len(),
    decreases s.len(),
{
    if s.len() > 0 && is_space_char(s.last()) {
        lemma_trim_back_len(s.drop_last());
    }
}

/// If the first `lo` characters are spaces and the one at `lo` (if any) is
/// not, trimming the front keeps exactly the characters from `lo` on.
pub proof fn lemma_trim_front_skip(s: Seq<char>, lo: int)
    requires
        0 <= lo <= s.len(),
        forall|k: int| 0 <= k < lo ==> is_space_char(#[trigger] s[k]),
        lo < s.len() ==> !is_space_char(s[lo]),
    ensures
        trim_front(s) == s.skip(lo),
    decreases lo,
{
    if lo == 0 {
        assert(s.skip(0) =~= s);
    } else {
        assert(is_space_char(s.first()));
        let t = s.drop_first();
        assert(forall|k: int| 0 <= k < lo - 1 ==> is_space_char(#[trigger] t[k]));
        lemma_trim_front_skip(t, lo - 1);
        assert(t.skip(lo - 1) =~= s.skip(lo));
    }
}

/// If every character from `hi` on is a space and the one before `hi` (if
/// any) is not, trimming the back keeps exactly the first `hi` characters.
pub proof fn lemma_trim_back_take(s: Seq<char>, hi: int)
    requires
        0 <= hi <= s.len(),
        forall|k: int| hi <= k < s.len() ==> is_space_char(#[trigger] s[k]),
        hi > 0 ==> !is_space_char(s[hi - 1]),
    ensures
        trim_back(s) == s.take(hi),
    decreases s.len(),
{
    if hi == s.len() {
        if s.len() > 0 {
            assert(!is_space_char(s.last()));
        }
        assert(s.take(hi) =~= s);
    } else {
        assert(is_space_char(s.last()));
        let t = s.drop_last();
        lemma_trim_back_take(t, hi);
        assert(t.take(hi) =~= s.take(hi));
    }
}

/// One step of the depth-tracking scan that splits a compound term into its
/// top-level tokens: the opening parenthesis raises depth zero to one without
/// being kept; a closing parenthesis at depth one ends the token list; a
/// space at depth one ends the current token; every other character is kept
/// in the current token, with nested parentheses tracked verbatim.
#[verifier::ext_equal]
pub ghost struct Scan {
    pub depth: int,
    pub acc: Seq<char>,
    pub toks: Seq<Seq<char>>,
}

pub open spec fn scan_init() -> Scan {
    Scan { depth: 0, acc: Seq::empty(), toks: Seq::empty() }
}

pub open spec fn scan_step(st: Scan, c: char) -> Scan {
    if c == '(' && st.depth == 0 {
        Scan { depth: 1, ..st }
    } else if c == ')' && st.depth == 1 {
        Scan { depth: 0, acc: Seq::empty(), toks: st.toks.push(st.acc) }
    } else if c == '(' {
        Scan { depth: st.depth + 1, acc: st.acc.push(c), ..st }
    } else if c == ')' {
        Scan { depth: st.depth - 1, acc: st.acc.push(c), ..st }
    } else if c == ' ' && st.depth == 1 {
        Scan { acc: Seq::empty(), toks: st.toks.push(st.acc), ..st }
    } else {
        Scan { acc: st.acc.push(c), ..st }
    }
}

pub open spec fn scan_chars(st: Scan, s: Seq<char>) -> Scan
    decreases s.len(),
{
    if s.len() == 0 {
        st
    } else {
        scan_chars(scan_step(st, s.first()), s.drop_first())
    }
}

/// The top-level tokens of a compound term text.
pub open spec fn spec_tokens(s: Seq<char>) -> Seq<Seq<char>> {
    scan_chars(scan_init(), s).toks
}

pub proof fn lemma_scan_snoc(st: Scan, s: Seq<char>, c: char)
    ensures
        scan_chars(st, s.push(c)) == scan_step(scan_chars(st, s), c),
    decreases s.len(),
{
    if s.len() == 0 {
        assert(s.push(c).drop_first() =~= Seq::<char>::empty());
        assert(scan_chars(st, s.push(c)) == scan_chars(scan_step(st, c), Seq::<char>::empty()));
    } else {
        assert(s.push(c).first() == s.first());
        assert(s.push(c).drop_first() =~= s.drop_first().push(c));
        lemma_scan_snoc(scan_step(st, s.first()), s.drop_first(), c);
    }
}

pub open spec fn sum_lens(toks: Seq<Seq<char>>) -> nat
    decreases toks.len(),
{
    if toks.len() == 0 {
        0
    } else {
        sum_lens(toks.drop_last()) + toks.last().len()
    }
}

pub proof fn lemma_sum_lens_each(toks: Seq<Seq<char>>)
    ensures
        forall|k: int| 0 <= k < toks.len() ==> (#[trigger] toks[k]).len() <= sum_lens(toks),
    decreases toks.len(),
{
    if toks.len() > 0 {
        lemma_sum_lens_each(toks.drop_last());
        assert(forall|k: int| 0 <= k < toks.len() - 1 ==> toks[k] == toks.drop_last()[k]);
    }
}

pub proof fn lemma_sum_lens_drop_first(toks: Seq<Seq<char>>)
    requires
        toks.len() > 0,
    ensures
        sum_lens(toks.drop_first()) + toks.first().len() == sum_lens(toks),
    decreases toks.len(),
{
    if toks.len() == 1 {
        assert(toks.drop_first() =~= Seq::<Seq<char>>::empty());
        assert(toks.drop_last() =~= Seq::<Seq<char>>::empty());
    } else {
        lemma_sum_lens_drop_first(toks.drop_last());
        assert(toks.drop_last().first() == toks.first());
        assert(toks.drop_first().drop_last() =~= toks.drop_last().drop_first());
        assert(toks.drop_first().last() == toks.last());
        assert(sum_lens(toks.drop_first()) == sum_lens(toks.drop_first().drop_last())
            + toks.last().len());
    }
}

/// Scanning can only grow the token list by characters it consumed: the
/// total size of the new tokens and of the open accumulator is bounded by
/// the input length plus the old accumulator.
pub proof fn lemma_scan_bound(st: Scan, s: Seq<char>)
    ensures
        scan_chars(st, s).acc.len() + sum_lens(scan_chars(st, s).toks) <= st.acc.len() + sum_lens(
            st.toks,
        ) + s.len(),
    decreases s.len(),
{
    if s.len() > 0 {
        let st1 = scan_step(st, s.first());
        lemma_scan_bound(st1, s.drop_first());
        assert(st1.acc.len() + sum_lens(st1.toks) <= st.acc.len() + sum_lens(st.toks) + 1) by {
            if (s.first() == ')' && st.depth == 1) || (s.first() == ' ' && st.depth == 1) {
                assert(st1.toks == st.toks.push(st.acc));
                assert(st1.toks.drop_last() =~= st.toks);
            }
        }
    }
}

/// For a compound text (one that begins with an opening parenthesis) the
/// tokens together are strictly shorter than the text.
pub proof fn lemma_tokens_bound(t: Seq<char>)
    requires
        t.len() > 0,
        t.first() == '(',
    ensures
        sum_lens(spec_tokens(t)) <= t.len() - 1,
        forall|k: int|
            0 <= k < spec_tokens(t).len() ==> (#[trigger] spec_tokens(t)[k]).len() <= t.len() - 1,
{
    let st1 = scan_step(scan_init(), t.first());
    assert(st1 == Scan { depth: 1, acc: Seq::<char>::empty(), toks: Seq::<Seq<char>>::empty() });
    lemma_scan_bound(st1, t.drop_first());
    assert(scan_chars(scan_init(), t) == scan_chars(st1, t.drop_first()));
    lemma_sum_lens_each(spec_tokens(t));
}

// ---------------------------------------------------------------------------
// Parsing
// ---------------------------------------------------------------------------

/// Parse a term text against the model: a trimmed text not starting with an
/// opening parenthesis is a bare leaf identifier naming a 0-ary application;
/// otherwise the text splits into tokens, the arguments are parsed in order,
/// the head token is resolved as the function name, and the resulting node
/// is interned. Any function name not in the table fails with `Undeclared`;
/// a compound that yields no tokens at all has no name and fails with
/// `Undeclared` of the empty name.
pub open spec fn spec_read(m: Model, s: Seq<char>) -> (Model, Result<int, ErrModel>)
    decreases s.len(), 0int, 0int,
{
    let t = spec_trim(s);
    if t.len() == 0 || t.first() != '(' {
        let f = find_first(m.fun_names, t);
        if f >= 0 {
            let (m1, h) = spec_intern(m, Node { f, children: Seq::empty() });
            (m1, Ok(h))
        } else {
            (m, Err(ErrModel::Undeclared(t)))
        }
    } else {
        let toks = spec_tokens(t);
        if toks.len() == 0 {
            (m, Err(ErrModel::Undeclared(Seq::empty())))
        } else {
            proof {
                lemma_trim_len(s);
                lemma_tokens_bound(t);
                lemma_sum_lens_drop_first(toks);
            }
            let (m1, ar) = spec_read_args(m, toks.drop_first());
            match ar {
                Ok(children) => {
                    let f = find_first(m1.fun_names, toks.first());
                    if f >= 0 {
                        let (m2, h) = spec_intern(m1, Node { f, children });
                        (m2, Ok(h))
                    } else {
                        (m1, Err(ErrModel::Undeclared(toks.first())))
                    }
                },
                Err(e) => (m1, Err(e)),
            }
        }
    }
}

/// Parse a list of argument tokens left to right, threading the model.
pub open spec fn spec_read_args(m: Model, toks: Seq<Seq<char>>) -> (Model, Result<
    Seq<int>,
    ErrModel,
>)
    decreases sum_lens(toks), 1int, toks.len(),
{
    if toks.len() == 0 {
        (m, Ok(Seq::empty()))
    } else {
        proof {
            lemma_sum_lens_drop_first(toks);
        }
        let (m1, r1) = spec_read(m, toks.first());
        match r1 {
            Ok(h) => {
                let (m2, r2) = spec_read_args(m1, toks.drop_first());
                match r2 {
                    Ok(rest) => (m2, Ok(seq![h] + rest)),
                    Err(e) => (m2, Err(e)),
                }
            },
            Err(e) => (m1, Err(e)),
        }
    }
}

// ---------------------------------------------------------------------------
// Axioms
// ---------------------------------------------------------------------------

/// Declaring an axiom parses the left text, then the right text, against the
/// same model; a parse failure fails the whole call (terms interned by the
/// successful side remain). On success the ordered pair is appended unless a
/// structurally equal pair is already stored.
pub open spec fn spec_declare_axiom(m: Model, l: Seq<char>, r: Seq<char>) -> (Model, Result<
    (),
    ErrModel,
>) {
    let (m1, lr) = spec_read(m, l);
    match lr {
        Err(e) => (m1, Err(e)),
        Ok(hl) => {
            let (m2, rr) = spec_read(m1, r);
            match rr {
                Err(e) => (m2, Err(e)),
                Ok(hr) => {
                    if m2.axioms.contains((hl, hr)) {
                        (m2, Ok(()))
                    } else {
                        (Model { axioms: m2.axioms.push((hl, hr)), ..m2 }, Ok(()))
                    }
                },
            }
        },
    }
}

// ---------------------------------------------------------------------------
// Frame lemmas: what parsing can and cannot change
// ---------------------------------------------------------------------------

pub open spec fn same_symbols(a: Model, b: Model) -> bool {
    &&& b.sorts == a.sorts
    &&& b.fun_names == a.fun_names
    &&& b.fun_args == a.fun_args
    &&& b.fun_results == a.fun_results
}

/// `b` is `a` with possibly more interned nodes, the same symbol table, and
/// any axiom list.
pub open spec fn read_extends(a: Model, b: Model) -> bool {
    &&& same_symbols(a, b)
    &&& a.nodes.len() <= b.nodes.len()
    &&& forall|i: int| 0 <= i < a.nodes.len() ==> b.nodes[i] == a.nodes[i]
}

pub proof fn lemma_read_extends_trans(a: Model, b: Model, c: Model)
    requires
        read_extends(a, b),
        read_extends(b, c),
    ensures
        read_extends(a, c),
{
}

/// In a duplicate-free pool, an occurrence is the first occurrence.
pub proof fn lemma_find_first_distinct<A>(s: Seq<A>, x: A, i: int)
    requires
        distinct_seq(s),
        0 <= i < s.len(),
        s[i] == x,
    ensures
        find_first(s, x) == i,
{
    lemma_find_first(s, x);
    assert(s.contains(x));
    let r = find_first(s, x);
    if r != i {
        assert(s[r] == x && s[i] == x);
    }
}

/// Interning a valid node preserves well-formedness, extends the pool, and
/// hands back a handle to a node equal to the requested one.
pub proof fn lemma_intern_wf(m: Model, n: Node)
    requires
        wf_model(m),
        0 <= n.f < m.fun_names.len(),
        forall|k: int| 0 <= k < n.children.len() ==> 0 <= #[trigger] n.children[k] < m.nodes.len(),
    ensures
        ({
            let (m1, h) = spec_intern(m, n);
            &&& wf_model(m1)
            &&& read_extends(m, m1)
            &&& 0 <= h < m1.nodes.len()
            &&& m1.nodes[h] == n
        }),
{
    let (m1, h) = spec_intern(m, n);
    let i = find_first(m.nodes, n);
    lemma_find_first(m.nodes, n);
    if i < 0 {
        assert(m1.nodes[m.nodes.len() as int] == n);
        assert forall|a: int, b: int| 0 <= a < b < m1.nodes.len() implies m1.nodes[a]
            != m1.nodes[b] by {
            if b < m.nodes.len() {
                assert(m1.nodes[a] == m.nodes[a] && m1.nodes[b] == m.nodes[b]);
            } else {
                assert(m1.nodes[b] == n);
                assert(m1.nodes[a] == m.nodes[a]);
                assert(m.nodes[a] != n);
            }
        }
        assert forall|j: int| 0 <= j < m1.nodes.len() implies wf_node_at(m1, j) by {
            if j < m.nodes.len() {
                assert(wf_node_at(m, j));
                assert(m1.nodes[j] == m.nodes[j]);
            } else {
                assert(m1.nodes[j] == n);
            }
        }
    }
}

/// Parsing preserves well-formedness and only grows the node pool; on
/// success the handle is a valid node, and the symbol table and axiom list
/// are untouched.
pub proof fn lemma_read_frame(m: Model, s: Seq<char>)
    requires
        wf_model(m),
    ensures
        ({
            let (m1, r) = spec_read(m, s);
            &&& wf_model(m1)
            &&& read_extends(m, m1)
            &&& m1.axioms == m.axioms
            &&& (r is Ok ==> 0 <= r->Ok_0 < m1.nodes.len())
        }),
    decreases s.len(), 0int, 0int,
{
    let t = spec_trim(s);
    if t.len() == 0 || t.first() != '(' {
        let f = find_first(m.fun_names, t);
        if f >= 0 {
            lemma_find_first(m.fun_names, t);
            lemma_intern_wf(m, Node { f, children: Seq::empty() });
        }
    } else {
        let toks = spec_tokens(t);
        if toks.len() != 0 {
            proof_decreases_read(s, toks);
            lemma_read_args_frame(m, toks.drop_first());
            let (m1, ar) = spec_read_args(m, toks.drop_first());
            match ar {
                Ok(children) => {
                    let f = find_first(m1.fun_names, toks.first());
                    if f >= 0 {
                        lemma_find_first(m1.fun_names, toks.first());
                        lemma_intern_wf(m1, Node { f, children });
                        lemma_read_extends_trans(m, m1, spec_intern(m1, Node { f, children }).0);
                    }
                },
                Err(_) => {},
            }
        }
    }
}

/// The termination facts for the compound branch of `spec_read`, shared by
/// the proofs that mirror its recursion.
proof fn proof_decreases_read(s: Seq<char>, toks: Seq<Seq<char>>)
    requires
        spec_trim(s).len() > 0,
        spec_trim(s).first() == '(',
        toks == spec_tokens(spec_trim(s)),
        toks.len() > 0,
    ensures
        sum_lens(toks.drop_first()) < s.len(),
        sum_lens(toks.drop_first()) <= sum_lens(toks),
{
    lemma_trim_len(s);
    lemma_tokens_bound(spec_trim(s));
    lemma_sum_lens_drop_first(toks);
}

pub proof fn lemma_read_args_frame(m: Model, toks: Seq<Seq<char>>)
    requires
        wf_model(m),
    ensures
        ({
            let (m1, r) = spec_read_args(m, toks);
            &&& wf_model(m1)
            &&& read_extends(m, m1)
            &&& m1.axioms == m.axioms
            &&& (r is Ok ==> r->Ok_0.len() == toks.len() && forall|k: int|
                0 <= k < r->Ok_0.len() ==> 0 <= #[trigger] r->Ok_0[k] < m1.nodes.len())
        }),
    decreases sum_lens(toks), 1int, toks.len(),
{
    if toks.len() > 0 {
        lemma_sum_lens_drop_first(toks);
        lemma_read_frame(m, toks.first());
        let (ma, r1) = spec_read(m, toks.first());
        match r1 {
            Ok(h) => {
                lemma_read_args_frame(ma, toks.drop_first());
                let (mb, r2) = spec_read_args(ma, toks.drop_first());
                lemma_read_extends_trans(m, ma, mb);
                match r2 {
                    Ok(rest) => {
                        let cs = seq![h] + rest;
                        assert(cs.len() == toks.len());
                        assert forall|k: int| 0 <= k < cs.len() implies 0 <= #[trigger] cs[k]
                            < mb.nodes.len() by {
                            if k == 0 {
                                assert(cs[0] == h);
                            } else {
                                assert(cs[k] == rest[k - 1]);
                            }
                        }
                    },
                    Err(_) => {},
                }
            },
            Err(_) => {},
        }
    }
}

// ---------------------------------------------------------------------------
// Re-parsing: a text that parsed successfully parses to the same handle, and
// changes nothing, in any model that extends the one the parse produced.
// ---------------------------------------------------------------------------

pub proof fn lemma_reparse(m: Model, big: Model, s: Seq<char>)
    requires
        wf_model(m),
        wf_model(big),
        spec_read(m, s).1 is Ok,
        read_extends(spec_read(m, s).0, big),
    ensures
        spec_read(big, s) == (big, spec_read(m, s).1),
    decreases s.len(), 0int, 0int,
{
    let t = spec_trim(s);
    let (m1, r) = spec_read(m, s);
    if t.len() == 0 || t.first() != '(' {
        let f = find_first(m.fun_names, t);
        assert(f >= 0);
        lemma_find_first(m.fun_names, t);
        let n = Node { f, children: Seq::empty() };
        lemma_intern_wf(m, n);
        let h = spec_intern(m, n).1;
        assert(m1.nodes[h] == n);
        assert(big.nodes[h] == n);
        lemma_find_first_distinct(big.nodes, n, h);
    } else {
        let toks = spec_tokens(t);
        assert(toks.len() > 0);
        proof_decreases_read(s, toks);
        let (ma, ar) = spec_read_args(m, toks.drop_first());
        lemma_read_args_frame(m, toks.drop_first());
        match ar {
            Ok(children) => {
                let f = find_first(ma.fun_names, toks.first());
                assert(f >= 0);
                lemma_find_first(ma.fun_names, toks.first());
                let n = Node { f, children };
                lemma_intern_wf(ma, n);
                let (m2, h) = spec_intern(ma, n);
                assert(read_extends(ma, m2));
                lemma_reparse_args(m, big, toks.drop_first());
                assert(m2.nodes[h] == n);
                assert(big.nodes[h] == n);
                lemma_find_first_distinct(big.nodes, n, h);
            },
            Err(_) => {
                assert(false);
            },
        }
    }
}

pub proof fn lemma_reparse_args(m: Model, big: Model, toks: Seq<Seq<char>>)
    requires
        wf_model(m),
        wf_model(big),
        spec_read_args(m, toks).1 is Ok,
        read_extends(spec_read_args(m, toks).0, big),
    ensures
        spec_read_args(big, toks) == (big, spec_read_args(m, toks).1),
    decreases sum_lens(toks), 1int, toks.len(),
{
    if toks.len() > 0 {
        lemma_sum_lens_drop_first(toks);
        let (ma, r1) = spec_read(m, toks.first());
        lemma_read_frame(m, toks.first());
        match r1 {
            Ok(h) => {
                let (mb, r2) = spec_read_args(ma, toks.drop_first());
                lemma_read_args_frame(ma, toks.drop_first());
                assert(r2 is Ok);
                assert(read_extends(ma, mb));
                lemma_read_extends_trans(ma, mb, big);
                lemma_reparse(m, big, toks.first());
                lemma_reparse_args(ma, big, toks.drop_first());
            },
            Err(_) => {
                assert(false);
            },
        }
    }
}

// ---------------------------------------------------------------------------
// Rendering
// ---------------------------------------------------------------------------

/// Render a term back to s-expression text: a leaf is its function's bare
/// name; a compound is the parenthesized name followed by the rendered
/// children, space-separated.
pub open spec fn spec_render(m: Model, t: int) -> Seq<char>
    decreases t, 1int, 0int,
        when wf_nodes(m) && 0 <= t < m.nodes.len()
{
    let n = m.nodes[t];
    if n.children.len() == 0 {
        m.fun_names[n.f]
    } else {
        (seq!['('] + m.fun_names[n.f] + spec_render_args(m, n.children, t)).push(')')
    }
}

/// The rendered children, each preceded by one space.
pub open spec fn spec_render_args(m: Model, cs: Seq<int>, b: int) -> Seq<char>
    decreases b, 0int, cs.len(),
        when wf_nodes(m) && b <= m.nodes.len() && forall|k: int|
            0 <= k < cs.len() ==> 0 <= #[trigger] cs[k] < b
{
    if cs.len() == 0 {
        Seq::empty()
    } else {
        spec_render_args(m, cs.drop_last(), b).push(' ') + spec_render(m, cs.last())
    }
}

/// One line of the axiom listing.
pub open spec fn spec_axiom_line(m: Model, l: int, r: int) -> Seq<char> {
    (seq!['(', '=', ' '] + spec_render(m, l)).push(' ') + spec_render(m, r) + seq![')']
}

/// The axiom lines joined by newlines.
pub open spec fn spec_axiom_lines(m: Model, axs: Seq<(int, int)>) -> Seq<char>
    decreases axs.len(),
{
    if axs.len() == 0 {
        Seq::empty()
    } else if axs.len() == 1 {
        spec_axiom_line(m, axs[0].0, axs[0].1)
    } else {
        (spec_axiom_lines(m, axs.drop_last()).push('\n')) + spec_axiom_line(
            m,
            axs.last().0,
            axs.last().1,
        )
    }
}

/// The full printer output: the literal header line, then one line per
/// axiom in declaration order.
pub open spec fn spec_env_text(m: Model) -> Seq<char> {
    seq!['A', 'x', 'i', 'o', 'm', 's', ':', '\n'] + spec_axiom_lines(m, m.axioms)
}

/// The host-visible message for each error value.
pub open spec fn spec_message(e: ErrModel) -> Seq<char> {
    match e {
        ErrModel::Undeclared(n) => n + " has not been declared!"@,
        ErrModel::AlreadyDeclared(n) => n + " has already been declared!"@,
        ErrModel::DeclaredTwice(n) => n + " has been declared twice!"@,
    }
}

/// Declaring one more sort after a list is the same as declaring the longer
/// list.
pub proof fn lemma_declare_sorts_snoc(m: Model, names: Seq<Seq<char>>, name: Seq<char>)
    ensures
        spec_declare_sorts(m, names.push(name)) == spec_declare_sort(
            spec_declare_sorts(m, names),
            name,
        ),
    decreases names.len(),
{
    let p = names.push(name);
    assert(p.len() == names.len() + 1);
    assert(spec_declare_sorts(m, p) == spec_declare_sorts(spec_declare_sort(m, p.first()), p.drop_first()));
    if names.len() == 0 {
        assert(p.first() == name);
        assert(p.drop_first() =~= Seq::<Seq<char>>::empty());
        assert(spec_declare_sorts(spec_declare_sort(m, name), p.drop_first())
            == spec_declare_sort(m, name));
        assert(spec_declare_sorts(m, names) == m);
    } else {
        assert(p.first() == names.first());
        assert(p.drop_first() =~= names.drop_first().push(name));
        lemma_declare_sorts_snoc(spec_declare_sort(m, names.first()), names.drop_first(), name);
        assert(spec_declare_sorts(m, names) == spec_declare_sorts(
            spec_declare_sort(m, names.first()),
            names.drop_first(),
        ));
    }
}

/// Declaring a function keeps the model well-formed whether it succeeds or
/// fails, and never touches the term pool or the axiom list.
pub proof fn lemma_declare_function_wf(
    m: Model,
    name: Seq<char>,
    args: Seq<Seq<char>>,
    result: Seq<char>,
)
    requires
        wf_model(m),
    ensures
        ({
            let (m2, r) = spec_declare_function(m, name, args, result);
            &&& wf_model(m2)
            &&& m2.nodes == m.nodes
            &&& m2.axioms == m.axioms
        }),
{
    let ms = spec_declare_sort(m, result);
    lemma_declare_sort_wf(m, result);
    let m1 = spec_declare_sorts(ms, args);
    lemma_declare_sorts_wf(ms, args);
    let (m2, r) = spec_declare_function(m, name, args, result);
    if !m1.fun_names.contains(name) {
        assert(ms.sorts.contains(result));
        assert(m1.sorts.contains(result));
        assert forall|i: int, j: int| 0 <= i < j < m2.fun_names.len() implies m2.fun_names[i]
            != m2.fun_names[j] by {
            if j < m1.fun_names.len() {
                assert(m2.fun_names[i] == m1.fun_names[i] && m2.fun_names[j] == m1.fun_names[j]);
            } else {
                assert(m2.fun_names[j] == name);
                assert(m2.fun_names[i] == m1.fun_names[i]);
                assert(!m1.fun_names.contains(name));
            }
        }
        assert(0 <= find_first(m1.sorts, result) < m1.sorts.len()) by {
            lemma_find_first(m1.sorts, result);
        }
        assert forall|i: int| 0 <= i < m2.fun_results.len() implies 0 <= #[trigger] m2.fun_results[i]
            < m2.sorts.len() by {
            if i < m1.fun_results.len() {
                assert(m2.fun_results[i] == m1.fun_results[i]);
            }
        }
        let ids = args.map_values(|a: Seq<char>| find_first(m1.sorts, a));
        assert forall|k: int| 0 <= k < ids.len() implies 0 <= #[trigger] ids[k]
            < m1.sorts.len() by {
            assert(m1.sorts.contains(args[k]));
            lemma_find_first(m1.sorts, args[k]);
            assert(ids[k] == find_first(m1.sorts, args[k]));
        }
        assert forall|i: int, k: int|
            0 <= i < m2.fun_args.len() && 0 <= k < m2.fun_args[i].len() implies 0
            <= #[trigger] m2.fun_args[i][k] < m2.sorts.len() by {
            if i < m1.fun_args.len() {
                assert(m2.fun_args[i] == m1.fun_args[i]);
            } else {
                assert(m2.fun_args[i] == ids);
            }
        }
        assert forall|i: int| 0 <= i < m2.nodes.len() implies wf_node_at(m2, i) by {
            assert(wf_node_at(m1, i));
            assert(m2.nodes[i] == m1.nodes[i]);
        }
    }
}

/// A name once declared stays declared through any later sort declarations.
pub proof fn lemma_declare_sorts_keeps(m: Model, names: Seq<Seq<char>>)
    ensures
        forall|s: Seq<char>|
            m.sorts.contains(s) ==> spec_declare_sorts(m, names).sorts.contains(s),
        forall|j: int|
            0 <= j < m.sorts.len() ==> spec_declare_sorts(m, names).sorts[j] == m.sorts[j],
        m.sorts.len() <= spec_declare_sorts(m, names).sorts.len(),
    decreases names.len(),
{
    if names.len() > 0 {
        let m1 = spec_declare_sort(m, names.first());
        assert(forall|j: int| 0 <= j < m.sorts.len() ==> m1.sorts[j] == m.sorts[j]);
        assert forall|s: Seq<char>| m.sorts.contains(s) implies m1.sorts.contains(s) by {
            let i = choose|i: int| 0 <= i < m.sorts.len() && m.sorts[i] == s;
            assert(m1.sorts[i] == s);
        }
        lemma_declare_sorts_keeps(m1, names.drop_first());
    }
}

} // verus!
