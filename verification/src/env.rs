//! The executable environment: symbol table, interned term pool, parser,
//! axiom store and printer, each refined against the model transitions.

use vstd::prelude::*;
use vstd::string::StrSliceExecFns;
use vstd::string::StringExecFns;

verus! {

use crate::model::{
    empty_model, find_first, is_space_char, lemma_declare_function_wf, lemma_declare_sort_wf,
    lemma_declare_sorts_keeps, lemma_declare_sorts_snoc, lemma_declare_sorts_wf,
    lemma_find_first, lemma_find_first_at, lemma_intern_wf, lemma_read_extends_trans,
    lemma_read_frame, lemma_scan_snoc, lemma_tokens_bound, lemma_trim_back_take,
    lemma_trim_front_skip, lemma_trim_len, lemma_wf_empty, read_extends, scan_chars, scan_init,
    spec_declare_function, spec_declare_sort, spec_declare_sorts, spec_intern, spec_message,
    spec_axiom_line, spec_axiom_lines, spec_declare_axiom, spec_env_text, spec_read,
    spec_read_args, spec_render, spec_render_args, spec_tokens, spec_trim, wf_model,
    wf_node_at, ErrModel, Model, Node, Scan,
};

/// A structured error value carrying the offending name. `DeclaredTwice` is
/// reserved in the taxonomy; no operation here produces it.
#[derive(Debug, Clone)]
pub enum Error {
    Undeclared(String),
    AlreadyDeclared(String),
    DeclaredTwice(String),
}

impl View for Error {
    type V = ErrModel;

    open spec fn view(&self) -> ErrModel {
        match self {
            Error::Undeclared(s) => ErrModel::Undeclared(s@),
            Error::AlreadyDeclared(s) => ErrModel::AlreadyDeclared(s@),
            Error::DeclaredTwice(s) => ErrModel::DeclaredTwice(s@),
        }
    }
}

impl Error {
    /// The fixed host-visible message for this error.
    pub fn message(&self) -> (r: String)
        ensures
            r@ == spec_message(self@),
    {
        match self {
            Error::Undeclared(n) => {
                let mut s = n.clone();
                s.append(" has not been declared!");
                s
            },
            Error::AlreadyDeclared(n) => {
                let mut s = n.clone();
                s.append(" has already been declared!");
                s
            },
            Error::DeclaredTwice(n) => {
                let mut s = n.clone();
                s.append(" has been declared twice!");
                s
            },
        }
    }
}

// ---------------------------------------------------------------------------
// Text helpers
// ---------------------------------------------------------------------------

/// Relies on `String::push`: it appends the given character to the end of
/// the string, leaving the earlier characters as they were.
#[verifier::external_body]
fn push_char(s: &mut String, c: char)
    ensures
        final (s)@ == old(s)@.push(c),
{
    s.push(c);
}

fn is_space(c: char) -> (r: bool)
    ensures
        r == is_space_char(c),
{
    c == ' ' || c == '\t' || c == '\n' || c == '\r'
}

fn str_to_chars(s: &str) -> (v: Vec<char>)
    ensures
        v@ == s@,
{
    let n = s.unicode_len();
    let mut v: Vec<char> = Vec::new();
    let mut i: usize = 0;
    while i < n
        invariant
            i <= n,
            n == s@.len(),
            v@ == s@.take(i as int),
        decreases n - i,
    {
        let c = s.get_char(i);
        v.push(c);
        proof {
            assert(s@.take(i + 1 as int) =~= s@.take(i as int).push(c));
        }
        i += 1;
    }
    proof {
        assert(s@.take(n as int) =~= s@);
    }
    v
}

fn chars_to_string(v: &Vec<char>) -> (s: String)
    ensures
        s@ == v@,
{
    let mut s = String::new();
    let n = v.len();
    let mut i: usize = 0;
    while i < n
        invariant
            i <= n,
            n == v@.len(),
            s@ == v@.take(i as int),
        decreases n - i,
    {
        push_char(&mut s, v[i]);
        proof {
            assert(v@.take(i + 1 as int) =~= v@.take(i as int).push(v@[i as int]));
        }
        i += 1;
    }
    proof {
        assert(v@.take(n as int) =~= v@);
    }
    s
}

fn chars_eq_string(v: &Vec<char>, s: &String) -> (r: bool)
    ensures
        r == (v@ == s@),
{
    let st = s.as_str();
    let n = st.unicode_len();
    if v.len() != n {
        proof {
            assert(v@.len() != s@.len());
        }
        return false;
    }
    let mut i: usize = 0;
    while i < n
        invariant
            i <= n,
            n == s@.len(),
            n == v@.len(),
            st@ == s@,
            forall|k: int| 0 <= k < i ==> v@[k] == s@[k],
        decreases n - i,
    {
        if v[i] != st.get_char(i) {
            proof {
                assert(v@[i as int] != s@[i as int]);
            }
            return false;
        }
        i += 1;
    }
    proof {
        assert(v@ =~= s@);
    }
    true
}

fn vec_usize_eq(a: &Vec<usize>, b: &Vec<usize>) -> (r: bool)
    ensures
        r == (a@ == b@),
{
    if a.len() != b.len() {
        proof {
            assert(a@.len() != b@.len());
        }
        return false;
    }
    let n = a.len();
    let mut i: usize = 0;
    while i < n
        invariant
            i <= n,
            n == a@.len(),
            n == b@.len(),
            forall|k: int| 0 <= k < i ==> a@[k] == b@[k],
        decreases n - i,
    {
        if a[i] != b[i] {
            return false;
        }
        i += 1;
    }
    proof {
        assert(a@ =~= b@);
    }
    true
}

// ---------------------------------------------------------------------------
// Views of the executable data as model values
// ---------------------------------------------------------------------------

/// The character sequences of a sequence of strings.
pub open spec fn strings_view(v: Seq<String>) -> Seq<Seq<char>> {
    v.map_values(|s: String| s@)
}

/// A sequence of machine integers as mathematical integers.
pub open spec fn usizes_view(v: Seq<usize>) -> Seq<int> {
    v.map_values(|i: usize| i as int)
}

/// The signatures table as sequences of mathematical integers.
pub open spec fn usize_vecs_view(v: Seq<Vec<usize>>) -> Seq<Seq<int>> {
    v.map_values(|w: Vec<usize>| usizes_view(w@))
}

/// The character sequences of a list of tokens.
pub open spec fn tokens_view(v: Seq<Vec<char>>) -> Seq<Seq<char>> {
    v.map_values(|t: Vec<char>| t@)
}

/// Axiom pairs of handles as pairs of mathematical integers.
pub open spec fn pairs_view(v: Seq<(usize, usize)>) -> Seq<(int, int)> {
    v.map_values(|p: (usize, usize)| (p.0 as int, p.1 as int))
}

proof fn lemma_usizes_view_eq(a: Seq<usize>, b: Seq<usize>)
    ensures
        (usizes_view(a) == usizes_view(b)) <==> (a == b),
{
    assert(usizes_view(a).len() == a.len());
    assert(usizes_view(b).len() == b.len());
    if usizes_view(a) == usizes_view(b) {
        assert forall|k: int| 0 <= k < a.len() implies a[k] == b[k] by {
            assert(usizes_view(a)[k] == a[k] as int);
            assert(usizes_view(b)[k] == b[k] as int);
        }
        assert(a =~= b);
    }
}

// ---------------------------------------------------------------------------
// The symbol table
// ---------------------------------------------------------------------------

/// One interned term node: a functor id and the handles of its children.
pub struct TermNode {
    func: usize,
    children: Vec<usize>,
}

/// The symbol table: a sort id or function id is a position in these
/// vectors, so ids are dense, zero-based and assigned in first-seen order.
/// The id-to-name direction is the vector itself; the name-to-id direction
/// is a linear search, sound because names are never stored twice.
pub struct Context {
    sorts: Vec<String>,
    fun_names: Vec<String>,
    fun_args: Vec<Vec<usize>>,
    fun_results: Vec<usize>,
}

impl Context {
    pub closed spec fn sorts_view(&self) -> Seq<Seq<char>> {
        strings_view(self.sorts@)
    }

    pub closed spec fn fun_names_view(&self) -> Seq<Seq<char>> {
        strings_view(self.fun_names@)
    }

    pub closed spec fn fun_args_view(&self) -> Seq<Seq<int>> {
        usize_vecs_view(self.fun_args@)
    }

    pub closed spec fn fun_results_view(&self) -> Seq<int> {
        usizes_view(self.fun_results@)
    }

    pub fn new() -> (c: Context)
        ensures
            c.sorts_view() == Seq::<Seq<char>>::empty(),
            c.fun_names_view() == Seq::<Seq<char>>::empty(),
            c.fun_args_view() == Seq::<Seq<int>>::empty(),
            c.fun_results_view() == Seq::<int>::empty(),
    {
        let c = Context {
            sorts: Vec::new(),
            fun_names: Vec::new(),
            fun_args: Vec::new(),
            fun_results: Vec::new(),
        };
        proof {
            assert(c.sorts_view() =~= Seq::<Seq<char>>::empty());
            assert(c.fun_names_view() =~= Seq::<Seq<char>>::empty());
            assert(c.fun_args_view() =~= Seq::<Seq<int>>::empty());
            assert(c.fun_results_view() =~= Seq::<int>::empty());
        }
        c
    }

    /// Position of the first sort with this name, if any.
    fn find_sort(&self, name: &String) -> (r: Option<usize>)
        ensures
            match r {
                Some(i) => i as int == find_first(self.sorts_view(), name@),
                None => find_first(self.sorts_view(), name@) < 0,
            },
    {
        let n = self.sorts.len();
        let mut i: usize = 0;
        while i < n
            invariant
                i <= n,
                n == self.sorts@.len(),
                forall|j: int| 0 <= j < i ==> self.sorts_view()[j] != name@,
            decreases n - i,
        {
            if self.sorts[i] == *name {
                proof {
                    lemma_find_first_at(self.sorts_view(), name@, i as int);
                }
                return Some(i);
            }
            i += 1;
        }
        proof {
            lemma_find_first(self.sorts_view(), name@);
        }
        None
    }

    /// Position of the first function with this name, given as a string.
    fn find_fun(&self, name: &String) -> (r: Option<usize>)
        ensures
            match r {
                Some(i) => i as int == find_first(self.fun_names_view(), name@),
                None => find_first(self.fun_names_view(), name@) < 0,
            },
    {
        let n = self.fun_names.len();
        let mut i: usize = 0;
        while i < n
            invariant
                i <= n,
                n == self.fun_names@.len(),
                forall|j: int| 0 <= j < i ==> self.fun_names_view()[j] != name@,
            decreases n - i,
        {
            if self.fun_names[i] == *name {
                proof {
                    lemma_find_first_at(self.fun_names_view(), name@, i as int);
                }
                return Some(i);
            }
            i += 1;
        }
        proof {
            lemma_find_first(self.fun_names_view(), name@);
        }
        None
    }

    /// Position of the first function with this name, given as characters.
    fn find_fun_chars(&self, name: &Vec<char>) -> (r: Option<usize>)
        ensures
            match r {
                Some(i) => i as int == find_first(self.fun_names_view(), name@),
                None => find_first(self.fun_names_view(), name@) < 0,
            },
    {
        let n = self.fun_names.len();
        let mut i: usize = 0;
        while i < n
            invariant
                i <= n,
                n == self.fun_names@.len(),
                forall|j: int| 0 <= j < i ==> self.fun_names_view()[j] != name@,
            decreases n - i,
        {
            if chars_eq_string(name, &self.fun_names[i]) {
                proof {
                    lemma_find_first_at(self.fun_names_view(), name@, i as int);
                }
                return Some(i);
            }
            i += 1;
        }
        proof {
            lemma_find_first(self.fun_names_view(), name@);
        }
        None
    }
}

// ---------------------------------------------------------------------------
// The environment
// ---------------------------------------------------------------------------

/// A problem instance: one symbol table, one content-addressed term pool
/// (a term handle is an index into it), and the ordered axiom list, stored
/// as pairs of term handles.
pub struct Environment {
    context: Context,
    terms: Vec<TermNode>,
    axioms: Vec<(usize, usize)>,
}

impl Environment {
    pub closed spec fn nodes_view(&self) -> Seq<Node> {
        self.terms@.map_values(
            |n: TermNode| Node { f: n.func as int, children: usizes_view(n.children@) },
        )
    }

    /// The whole state as mathematics; every contract speaks of this.
    pub closed spec fn model(&self) -> Model {
        Model {
            sorts: self.context.sorts_view(),
            fun_names: self.context.fun_names_view(),
            fun_args: self.context.fun_args_view(),
            fun_results: self.context.fun_results_view(),
            nodes: self.nodes_view(),
            axioms: pairs_view(self.axioms@),
        }
    }

    pub open spec fn wf(&self) -> bool {
        wf_model(self.model())
    }

    /// A fresh, empty environment.
    pub fn new() -> (e: Environment)
        ensures
            e.wf(),
            e.model() == empty_model(),
    {
        let e = Environment { context: Context::new(), terms: Vec::new(), axioms: Vec::new() };
        proof {
            assert(e.nodes_view() =~= Seq::<Node>::empty());
            assert(pairs_view(e.axioms@) =~= Seq::<(int, int)>::empty());
            assert(e.model() =~~= empty_model());
            lemma_wf_empty();
        }
        e
    }

    /// Register a sort name; a second declaration of the same name changes
    /// nothing, so sort declaration never fails.
    pub fn declare_sort(&mut self, sortname: String)
        requires
            old(self).wf(),
        ensures
            final (self).wf(),
            final (self).model() == spec_declare_sort(old(self).model(), sortname@),
    {
        let ghost m0 = self.model();
        proof {
            lemma_declare_sort_wf(m0, sortname@);
        }
        match self.context.find_sort(&sortname) {
            Some(_) => {
                proof {
                    lemma_find_first(m0.sorts, sortname@);
                    assert(m0.sorts.contains(sortname@));
                }
            },
            None => {
                proof {
                    lemma_find_first(m0.sorts, sortname@);
                    assert(!m0.sorts.contains(sortname@));
                }
                let ghost old_sorts = self.context.sorts@;
                self.context.sorts.push(sortname);
                proof {
                    assert(self.context.sorts_view() =~= m0.sorts.push(sortname@)) by {
                        assert(self.context.sorts@ == old_sorts.push(sortname));
                    }
                    assert(self.model() =~~= spec_declare_sort(m0, sortname@));
                }
            },
        }
    }

    /// Declare a function symbol: its result sort and argument sorts are
    /// declared first (in that order), then the function itself is
    /// registered, unless the name is already a function, in which case the
    /// call fails with `AlreadyDeclared` and only the sort declarations
    /// remain.
    pub fn declare_function(
        &mut self,
        functionname: String,
        argsorts: Vec<String>,
        resultsort: String,
    ) -> (r: Result<(), Error>)
        requires
            old(self).wf(),
        ensures
            final (self).wf(),
            ({
                let (m2, sr) = spec_declare_function(
                    old(self).model(),
                    functionname@,
                    strings_view(argsorts@),
                    resultsort@,
                );
                &&& final (self).model() == m2
                &&& match (r, sr) {
                    (Ok(()), Ok(())) => true,
                    (Err(e), Err(se)) => e@ == se,
                    _ => false,
                }
            }),
    {
        let ghost m0 = self.model();
        let ghost argviews = strings_view(argsorts@);
        self.declare_sort(resultsort.clone());
        proof {
            lemma_declare_sort_wf(m0, resultsort@);
        }
        let ghost mr = self.model();
        let n = argsorts.len();
        let mut i: usize = 0;
        proof {
            assert(argviews.take(0) =~= Seq::<Seq<char>>::empty());
        }
        while i < n
            invariant
                i <= n,
                n == argsorts@.len(),
                argviews == strings_view(argsorts@),
                self.wf(),
                self.model() == spec_declare_sorts(mr, argviews.take(i as int)),
            decreases n - i,
        {
            let ghost mcur = self.model();
            self.declare_sort(argsorts[i].clone());
            proof {
                assert(argviews[i as int] == argsorts@[i as int]@);
                lemma_declare_sorts_snoc(mr, argviews.take(i as int), argviews[i as int]);
                assert(argviews.take(i + 1 as int) =~= argviews.take(i as int).push(
                    argviews[i as int],
                ));
            }
            i += 1;
        }
        proof {
            assert(argviews.take(n as int) =~= argviews);
            lemma_declare_sorts_wf(mr, argviews);
        }
        let ghost m1 = self.model();
        match self.context.find_fun(&functionname) {
            Some(_) => {
                proof {
                    lemma_find_first(m1.fun_names, functionname@);
                    assert(m1.fun_names.contains(functionname@));
                }
                Err(Error::AlreadyDeclared(functionname))
            },
            None => {
                proof {
                    lemma_find_first(m1.fun_names, functionname@);
                    assert(!m1.fun_names.contains(functionname@));
                    assert(mr.sorts.contains(resultsort@));
                    lemma_declare_sorts_keeps(mr, argviews);
                    assert(m1.sorts.contains(resultsort@));
                }
                let rid: usize = match self.context.find_sort(&resultsort) {
                    Some(i) => i,
                    None => {
                        proof {
                            lemma_find_first(m1.sorts, resultsort@);
                            assert(false);
                        }
                        0
                    },
                };
                let mut ids: Vec<usize> = Vec::new();
                let mut j: usize = 0;
                while j < n
                    invariant
                        j <= n,
                        n == argsorts@.len(),
                        argviews == strings_view(argsorts@),
                        self.model() == m1,
                        wf_model(m1),
                        forall|k: int| 0 <= k < n ==> m1.sorts.contains(#[trigger] argviews[k]),
                        ids@.len() == j,
                        forall|k: int|
                            0 <= k < j ==> (#[trigger] ids@[k]) as int == find_first(
                                m1.sorts,
                                argviews[k],
                            ),
                    decreases n - j,
                {
                    let id: usize = match self.context.find_sort(&argsorts[j]) {
                        Some(i) => i,
                        None => {
                            proof {
                                assert(m1.sorts.contains(argviews[j as int]));
                                lemma_find_first(m1.sorts, argviews[j as int]);
                                assert(false);
                            }
                            0
                        },
                    };
                    ids.push(id);
                    j += 1;
                }
                let ghost old_fun_names = self.context.fun_names@;
                let ghost old_fun_args = self.context.fun_args@;
                let ghost old_fun_results = self.context.fun_results@;
                self.context.fun_names.push(functionname);
                self.context.fun_args.push(ids);
                self.context.fun_results.push(rid);
                proof {
                    let (m2, sr) = spec_declare_function(
                        m0,
                        functionname@,
                        argviews,
                        resultsort@,
                    );
                    assert(self.context.fun_names@ == old_fun_names.push(functionname));
                    assert(self.context.fun_names_view() =~= m1.fun_names.push(functionname@));
                    assert(self.context.fun_results_view() =~= m1.fun_results.push(rid as int));
                    assert(usizes_view(ids@) =~= argviews.map_values(
                        |a: Seq<char>| find_first(m1.sorts, a),
                    ));
                    assert(self.context.fun_args_view() =~= m1.fun_args.push(
                        argviews.map_values(|a: Seq<char>| find_first(m1.sorts, a)),
                    ));
                    assert(self.model() =~~= m2);
                    lemma_declare_function_wf(m0, functionname@, argviews, resultsort@);
                }
                Ok(())
            },
        }
    }

    /// Content-addressed interning: hand back the handle of the structurally
    /// equal pooled node if there is one, otherwise pool the node and hand
    /// back its fresh handle. The pool only grows.
    fn intern(&mut self, func: usize, children: Vec<usize>) -> (h: usize)
        requires
            old(self).wf(),
            (func as int) < old(self).model().fun_names.len(),
            forall|k: int|
                0 <= k < children@.len() ==> ((#[trigger] children@[k]) as int)
                    < old(self).model().nodes.len(),
        ensures
            final (self).wf(),
            ({
                let (m1, sh) = spec_intern(
                    old(self).model(),
                    Node { f: func as int, children: usizes_view(children@) },
                );
                &&& final (self).model() == m1
                &&& h as int == sh
            }),
    {
        let ghost m0 = self.model();
        let ghost nd = Node { f: func as int, children: usizes_view(children@) };
        proof {
            lemma_intern_wf(m0, nd);
        }
        let n = self.terms.len();
        let mut i: usize = 0;
        while i < n
            invariant
                i <= n,
                n == self.terms@.len(),
                nd == (Node { f: func as int, children: usizes_view(children@) }),
                m0 == self.model(),
                m0 == old(self).model(),
                wf_model(m0),
                forall|j: int| 0 <= j < i ==> m0.nodes[j] != nd,
            decreases n - i,
        {
            proof {
                assert(m0.nodes[i as int] == (Node {
                    f: self.terms@[i as int].func as int,
                    children: usizes_view(self.terms@[i as int].children@),
                }));
            }
            if self.terms[i].func == func && vec_usize_eq(&self.terms[i].children, &children) {
                proof {
                    lemma_usizes_view_eq(self.terms@[i as int].children@, children@);
                    assert(m0.nodes[i as int] == nd);
                    lemma_find_first_at(m0.nodes, nd, i as int);
                }
                return i;
            }
            proof {
                lemma_usizes_view_eq(self.terms@[i as int].children@, children@);
                assert(m0.nodes[i as int] != nd);
            }
            i += 1;
        }
        proof {
            lemma_find_first(m0.nodes, nd);
            assert(find_first(m0.nodes, nd) < 0);
        }
        let ghost old_terms = self.terms@;
        let h = self.terms.len();
        self.terms.push(TermNode { func, children });
        proof {
            assert(self.terms@ == old_terms.push(TermNode { func, children }));
            assert(self.nodes_view() =~= m0.nodes.push(nd));
            assert(self.model() =~~= spec_intern(m0, nd).0);
        }
        h
    }

    /// Parse one term text (as characters) against the current declarations,
    /// interning every subterm: the workhorse behind `read_term`.
    fn parse_chars(&mut self, s: &Vec<char>) -> (r: Result<usize, Error>)
        requires
            old(self).wf(),
        ensures
            final (self).wf(),
            ({
                let (m1, sr) = spec_read(old(self).model(), s@);
                &&& final (self).model() == m1
                &&& match (r, sr) {
                    (Ok(h), Ok(sh)) => h as int == sh,
                    (Err(e), Err(se)) => e@ == se,
                    _ => false,
                }
            }),
        decreases s@.len(),
    {
        let ghost m0 = self.model();
        // Trim the input.
        let len = s.len();
        let mut lo: usize = 0;
        while lo < len && is_space(s[lo])
            invariant
                lo <= len,
                len == s@.len(),
                forall|k: int| 0 <= k < lo ==> is_space_char(#[trigger] s@[k]),
            decreases len - lo,
        {
            lo += 1;
        }
        let mut hi: usize = len;
        while hi > lo && is_space(s[hi - 1])
            invariant
                lo <= hi <= len,
                len == s@.len(),
                lo == len || !is_space_char(s@[lo as int]),
                forall|k: int| 0 <= k < lo ==> is_space_char(#[trigger] s@[k]),
                forall|k: int| hi <= k < len ==> is_space_char(#[trigger] s@[k]),
            decreases hi,
        {
            hi -= 1;
        }
        let mut t: Vec<char> = Vec::new();
        let mut q: usize = lo;
        proof {
            assert(t@ =~= s@.subrange(lo as int, lo as int));
        }
        while q < hi
            invariant
                lo <= q <= hi <= len,
                len == s@.len(),
                t@ == s@.subrange(lo as int, q as int),
            decreases hi - q,
        {
            let c = s[q];
            t.push(c);
            proof {
                assert(s@.subrange(lo as int, q + 1 as int) =~= s@.subrange(
                    lo as int,
                    q as int,
                ).push(c));
            }
            q += 1;
        }
        proof {
            lemma_trim_front_skip(s@, lo as int);
            let u = s@.skip(lo as int);
            assert(forall|k: int| hi - lo <= k < u.len() ==> is_space_char(#[trigger] u[k])) by {
                assert(forall|k: int|
                    hi - lo <= k < u.len() ==> u[k] == s@[k + lo] && hi <= k + lo < len);
            }
            if hi > lo {
                assert(!is_space_char(u[hi - lo - 1]));
            }
            lemma_trim_back_take(u, hi - lo);
            assert(u.take(hi - lo) =~= s@.subrange(lo as int, hi as int));
            assert(t@ == spec_trim(s@));
        }
        let ghost tv = spec_trim(s@);
        if t.len() == 0 || t[0] != '(' {
            // A bare leaf identifier: a 0-ary application of a declared
            // function, or `Undeclared` if the name is unknown.
            match self.context.find_fun_chars(&t) {
                Some(f) => {
                    proof {
                        lemma_find_first(m0.fun_names, tv);
                    }
                    let h = self.intern(f, Vec::new());
                    proof {
                        assert(usizes_view(Seq::<usize>::empty()) =~= Seq::<int>::empty());
                        assert(Node {
                            f: f as int,
                            children: usizes_view(Seq::<usize>::empty()),
                        } == (Node { f: find_first(m0.fun_names, tv), children: Seq::<int>::empty() }));
                    }
                    Ok(h)
                },
                None => {
                    let name = chars_to_string(&t);
                    Err(Error::Undeclared(name))
                },
            }
        } else {
            // A compound term: split into top-level tokens by the
            // depth-tracking scan.
            let tlen = t.len();
            let mut toks: Vec<Vec<char>> = Vec::new();
            let mut acc: Vec<char> = Vec::new();
            let mut depth: i128 = 0;
            let mut i: usize = 0;
            proof {
                assert(t@.take(0) =~= Seq::<char>::empty());
                assert(tokens_view(toks@) =~= Seq::<Seq<char>>::empty());
                assert(scan_chars(scan_init(), t@.take(0)) == scan_init());
            }
            while i < tlen
                invariant
                    i <= tlen,
                    tlen == t@.len(),
                    t@ == tv,
                    scan_chars(scan_init(), t@.take(i as int)) == (Scan {
                        depth: depth as int,
                        acc: acc@,
                        toks: tokens_view(toks@),
                    }),
                    -(i as int) <= depth as int <= i as int,
                decreases tlen - i,
            {
                let c = t[i];
                proof {
                    lemma_scan_snoc(scan_init(), t@.take(i as int), c);
                    assert(t@.take(i + 1 as int) =~= t@.take(i as int).push(c));
                }
                let ghost st_pre = scan_chars(scan_init(), t@.take(i as int));
                if depth == 0 && c == '(' {
                    depth = depth + 1;
                } else if depth == 1 && c == ')' {
                    depth = depth - 1;
                    let ghost old_toks = toks@;
                    toks.push(acc);
                    acc = Vec::new();
                    proof {
                        assert(tokens_view(toks@) =~= tokens_view(old_toks).push(st_pre.acc));
                        assert(acc@ =~= Seq::<char>::empty());
                    }
                } else if c == '(' {
                    depth = depth + 1;
                    acc.push(c);
                } else if c == ')' {
                    depth = depth - 1;
                    acc.push(c);
                } else if depth == 1 && c == ' ' {
                    let ghost old_toks = toks@;
                    toks.push(acc);
                    acc = Vec::new();
                    proof {
                        assert(tokens_view(toks@) =~= tokens_view(old_toks).push(st_pre.acc));
                        assert(acc@ =~= Seq::<char>::empty());
                    }
                } else {
                    acc.push(c);
                }
                i += 1;
            }
            proof {
                assert(t@.take(tlen as int) =~= t@);
                assert(tokens_view(toks@) == spec_tokens(tv));
            }
            if toks.len() == 0 {
                proof {
                    assert(spec_tokens(tv).len() == 0);
                }
                return Err(Error::Undeclared(String::new()));
            }
            // Parse the argument tokens in order, threading the pool.
            let ghost big_t = spec_tokens(tv).drop_first();
            let ntoks = toks.len();
            let mut children: Vec<usize> = Vec::new();
            let mut j: usize = 1;
            proof {
                assert(big_t.skip(0) =~= big_t);
                assert(usizes_view(children@) =~= Seq::<int>::empty());
                assert(usizes_view(children@) + spec_read_args(self.model(), big_t).1->Ok_0
                    =~= spec_read_args(self.model(), big_t).1->Ok_0);
                assert(read_extends(m0, self.model()));
            }
            while j < ntoks
                invariant
                    1 <= j <= ntoks,
                    ntoks == toks@.len(),
                    s@.len() >= tv.len() > 0,
                    tv == spec_trim(s@),
                    tv.first() == '(',
                    tokens_view(toks@) == spec_tokens(tv),
                    big_t == spec_tokens(tv).drop_first(),
                    self.wf(),
                    wf_model(m0),
                    m0 == old(self).model(),
                    read_extends(m0, self.model()),
                    children@.len() == j - 1,
                    forall|k: int|
                        0 <= k < children@.len() ==> ((#[trigger] children@[k]) as int)
                            < self.model().nodes.len(),
                    ({
                        let (mf, ar) = spec_read_args(self.model(), big_t.skip(j - 1 as int));
                        spec_read_args(m0, big_t) == (match ar {
                            Ok(cs) => (mf, Ok(usizes_view(children@) + cs)),
                            Err(e) => (mf, Err(e)),
                        })
                    }),
                decreases ntoks - j,
            {
                proof {
                    lemma_trim_len(s@);
                    lemma_tokens_bound(tv);
                    assert(tokens_view(toks@)[j as int] == toks@[j as int]@);
                    assert(toks@[j as int]@.len() <= tv.len() - 1);
                }
                let ghost m_pre = self.model();
                let ghost old_children = children@;
                let r = self.parse_chars(&toks[j]);
                proof {
                    lemma_read_frame(m_pre, toks@[j as int]@);
                    let rem = big_t.skip(j - 1 as int);
                    assert(rem.len() == ntoks - j);
                    assert(big_t[j - 1 as int] == tokens_view(toks@)[j as int]);
                    assert(rem.first() == toks@[j as int]@);
                    assert(rem.drop_first() =~= big_t.skip(j as int));
                }
                match r {
                    Ok(h) => {
                        children.push(h);
                        proof {
                            assert(children@ == old_children.push(h));
                            assert(usizes_view(children@) =~= usizes_view(old_children).push(
                                h as int,
                            ));
                            let m_new = self.model();
                            let (mf2, ar2) = spec_read_args(m_new, big_t.skip(j as int));
                            match ar2 {
                                Ok(cs) => {
                                    assert(usizes_view(old_children) + (seq![h as int] + cs)
                                        =~= usizes_view(children@) + cs);
                                },
                                Err(_) => {},
                            }
                            lemma_read_extends_trans(m0, m_pre, m_new);
                        }
                    },
                    Err(e) => {
                        proof {
                            let m_new = self.model();
                            assert(spec_read_args(m_pre, big_t.skip(j - 1 as int)) == (
                                m_new,
                                Result::<Seq<int>, ErrModel>::Err(e@),
                            ));
                            assert(spec_read_args(m0, big_t) == (
                                m_new,
                                Result::<Seq<int>, ErrModel>::Err(e@),
                            ));
                        }
                        return Err(e);
                    },
                }
                j += 1;
            }
            proof {
                assert(big_t.skip(ntoks - 1) =~= Seq::<Seq<char>>::empty());
                let (mf, ar) = spec_read_args(self.model(), big_t.skip(ntoks - 1));
                assert(mf == self.model() && ar == Result::<Seq<int>, ErrModel>::Ok(
                    Seq::<int>::empty(),
                ));
                assert(usizes_view(children@) + Seq::<int>::empty() =~= usizes_view(children@));
                assert(spec_read_args(m0, big_t) == (
                    self.model(),
                    Result::<Seq<int>, ErrModel>::Ok(usizes_view(children@)),
                ));
            }
            let ghost m1 = self.model();
            match self.context.find_fun_chars(&toks[0]) {
                Some(f) => {
                    proof {
                        lemma_find_first(m1.fun_names, toks@[0]@);
                        assert(tokens_view(toks@)[0] == toks@[0]@);
                        assert(spec_tokens(tv).first() == toks@[0]@);
                    }
                    let h = self.intern(f, children);
                    proof {
                        assert(Node { f: f as int, children: usizes_view(children@) } == (Node {
                            f: find_first(m1.fun_names, spec_tokens(tv).first()),
                            children: spec_read_args(m0, big_t).1->Ok_0,
                        }));
                    }
                    Ok(h)
                },
                None => {
                    proof {
                        assert(tokens_view(toks@)[0] == toks@[0]@);
                        assert(spec_tokens(tv).first() == toks@[0]@);
                    }
                    let name = chars_to_string(&toks[0]);
                    Err(Error::Undeclared(name))
                },
            }
        }
    }

    /// Parse an s-expression term text, interning every subterm, and hand
    /// back the canonical handle of the parsed term.
    pub fn read_term(&mut self, s: String) -> (r: Result<usize, Error>)
        requires
            old(self).wf(),
        ensures
            final (self).wf(),
            ({
                let (m1, sr) = spec_read(old(self).model(), s@);
                &&& final (self).model() == m1
                &&& match (r, sr) {
                    (Ok(h), Ok(sh)) => h as int == sh,
                    (Err(e), Err(se)) => e@ == se,
                    _ => false,
                }
            }),
            r is Ok ==> (r->Ok_0 as int) < final (self).model().nodes.len(),
    {
        let ghost m0 = self.model();
        let v = str_to_chars(s.as_str());
        let r = self.parse_chars(&v);
        proof {
            lemma_read_frame(m0, s@);
        }
        r
    }

    /// Render the term with the given handle back to s-expression text.
    pub fn show_term(&self, t: usize) -> (r: String)
        requires
            self.wf(),
            (t as int) < self.model().nodes.len(),
        ensures
            r@ == spec_render(self.model(), t as int),
        decreases t,
    {
        let ghost m = self.model();
        proof {
            assert(wf_node_at(m, t as int));
            assert(m.nodes[t as int] == (Node {
                f: self.terms@[t as int].func as int,
                children: usizes_view(self.terms@[t as int].children@),
            }));
        }
        let f = self.terms[t].func;
        if self.terms[t].children.len() == 0 {
            proof {
                assert(m.nodes[t as int].children.len() == 0);
            }
            self.context.fun_names[f].clone()
        } else {
            let mut out = String::new();
            push_char(&mut out, '(');
            out.append(self.context.fun_names[f].as_str());
            let ghost cs = m.nodes[t as int].children;
            proof {
                assert(out@ =~= seq!['('] + m.fun_names[f as int]);
                assert(cs.take(0) =~= Seq::<int>::empty());
            }
            let k = self.terms[t].children.len();
            let mut j: usize = 0;
            while j < k
                invariant
                    j <= k,
                    self.wf(),
                    m == self.model(),
                    (t as int) < m.nodes.len(),
                    k == self.terms@[t as int].children@.len(),
                    cs == m.nodes[t as int].children,
                    k == cs.len(),
                    out@ == seq!['('] + m.fun_names[m.nodes[t as int].f] + spec_render_args(
                        m,
                        cs.take(j as int),
                        t as int,
                    ),
                decreases k - j,
            {
                push_char(&mut out, ' ');
                proof {
                    assert(wf_node_at(m, t as int));
                    assert(cs[j as int] == self.terms@[t as int].children@[j as int] as int);
                    assert(0 <= cs[j as int] < t as int);
                }
                let child = self.terms[t].children[j];
                let sub = self.show_term(child);
                out.append(sub.as_str());
                proof {
                    assert(cs.take(j + 1 as int).drop_last() =~= cs.take(j as int));
                    assert(cs.take(j + 1 as int).last() == cs[j as int]);
                    assert(spec_render_args(m, cs.take(j + 1 as int), t as int)
                        == spec_render_args(m, cs.take(j as int), t as int).push(' ')
                        + spec_render(m, cs[j as int]));
                }
                j += 1;
            }
            push_char(&mut out, ')');
            proof {
                assert(cs.take(k as int) =~= cs);
            }
            out
        }
    }

    /// Render the whole axiom store: the header line `Axioms:` followed by
    /// one `(= lhs rhs)` line per axiom, in declaration order.
    #[verifier::rlimit(60)]
    pub fn to_text(&self) -> (r: String)
        requires
            self.wf(),
        ensures
            r@ == spec_env_text(self.model()),
    {
        let ghost m = self.model();
        let mut out = String::new();
        push_char(&mut out, 'A');
        push_char(&mut out, 'x');
        push_char(&mut out, 'i');
        push_char(&mut out, 'o');
        push_char(&mut out, 'm');
        push_char(&mut out, 's');
        push_char(&mut out, ':');
        push_char(&mut out, '\n');
        let ghost header = seq!['A', 'x', 'i', 'o', 'm', 's', ':', '\n'];
        proof {
            assert(out@ =~= header);
            assert(m.axioms.take(0) =~= Seq::<(int, int)>::empty());
        }
        let n = self.axioms.len();
        let mut i: usize = 0;
        while i < n
            invariant
                i <= n,
                self.wf(),
                m == self.model(),
                n == self.axioms@.len(),
                n == m.axioms.len(),
                out@ == header + spec_axiom_lines(m, m.axioms.take(i as int)),
            decreases n - i,
        {
            if i > 0 {
                push_char(&mut out, '\n');
            }
            proof {
                assert(m.axioms[i as int] == (
                    self.axioms@[i as int].0 as int,
                    self.axioms@[i as int].1 as int,
                ));
            }
            let (l, rr) = (self.axioms[i].0, self.axioms[i].1);
            push_char(&mut out, '(');
            push_char(&mut out, '=');
            push_char(&mut out, ' ');
            let ls = self.show_term(l);
            out.append(ls.as_str());
            push_char(&mut out, ' ');
            let rs = self.show_term(rr);
            out.append(rs.as_str());
            push_char(&mut out, ')');
            proof {
                let line = spec_axiom_line(m, l as int, rr as int);
                assert(line =~= (seq!['(', '=', ' '] + spec_render(m, l as int)).push(' ')
                    + spec_render(m, rr as int) + seq![')']);
                let taken = m.axioms.take(i + 1 as int);
                assert(taken.drop_last() =~= m.axioms.take(i as int));
                assert(taken.last() == m.axioms[i as int]);
                if i == 0 {
                    assert(taken.len() == 1);
                    assert(spec_axiom_lines(m, taken) == spec_axiom_line(
                        m,
                        taken[0].0,
                        taken[0].1,
                    ));
                    assert(out@ =~= header + spec_axiom_lines(m, taken));
                } else {
                    assert(spec_axiom_lines(m, taken) == spec_axiom_lines(
                        m,
                        m.axioms.take(i as int),
                    ).push('\n') + spec_axiom_line(m, m.axioms[i as int].0, m.axioms[i as int].1));
                    assert(out@ =~= header + spec_axiom_lines(m, taken));
                }
            }
            i += 1;
        }
        proof {
            assert(m.axioms.take(n as int) =~= m.axioms);
        }
        out
    }

    /// Does the axiom store already hold this exact ordered pair?
    fn contains_axiom(&self, l: usize, r: usize) -> (b: bool)
        ensures
            b == self.model().axioms.contains((l as int, r as int)),
    {
        let n = self.axioms.len();
        let mut i: usize = 0;
        while i < n
            invariant
                i <= n,
                n == self.axioms@.len(),
                forall|j: int|
                    0 <= j < i ==> #[trigger] pairs_view(self.axioms@)[j] != (l as int, r as int),
            decreases n - i,
        {
            proof {
                assert(pairs_view(self.axioms@)[i as int] == (
                    self.axioms@[i as int].0 as int,
                    self.axioms@[i as int].1 as int,
                ));
            }
            if self.axioms[i].0 == l && self.axioms[i].1 == r {
                proof {
                    assert(self.model().axioms[i as int] == (l as int, r as int));
                }
                return true;
            }
            i += 1;
        }
        proof {
            if self.model().axioms.contains((l as int, r as int)) {
                let j = choose|j: int|
                    0 <= j < pairs_view(self.axioms@).len() && pairs_view(self.axioms@)[j] == (
                        l as int,
                        r as int,
                    );
                assert(pairs_view(self.axioms@)[j] != (l as int, r as int));
            }
        }
        false
    }

    /// Parse both sides against the current declarations and append the pair
    /// to the axiom store, unless an equal ordered pair is already present,
    /// in which case the call succeeds without adding anything. A parse
    /// failure on either side fails the call; terms interned by a
    /// successfully parsed side remain pooled.
    pub fn declare_axiom(&mut self, l: String, r: String) -> (res: Result<(), Error>)
        requires
            old(self).wf(),
        ensures
            final (self).wf(),
            ({
                let (m2, sr) = spec_declare_axiom(old(self).model(), l@, r@);
                &&& final (self).model() == m2
                &&& match (res, sr) {
                    (Ok(()), Ok(())) => true,
                    (Err(e), Err(se)) => e@ == se,
                    _ => false,
                }
            }),
    {
        let ghost m0 = self.model();
        let hl = match self.read_term(l) {
            Ok(h) => h,
            Err(e) => {
                return Err(e);
            },
        };
        let ghost ma = self.model();
        proof {
            lemma_read_frame(m0, l@);
        }
        let hr = match self.read_term(r) {
            Ok(h) => h,
            Err(e) => {
                return Err(e);
            },
        };
        let ghost mb = self.model();
        proof {
            lemma_read_frame(ma, r@);
        }
        if !self.contains_axiom(hl, hr) {
            let ghost old_axioms = self.axioms@;
            self.axioms.push((hl, hr));
            proof {
                assert(self.axioms@ == old_axioms.push((hl, hr)));
                assert(pairs_view(self.axioms@) =~= pairs_view(old_axioms).push((
                    hl as int,
                    hr as int,
                )));
                assert(self.model() =~~= spec_declare_axiom(m0, l@, r@).0);
                assert((hl as int) < mb.nodes.len() && (hr as int) < mb.nodes.len());
                assert forall|i: int| 0 <= i < self.model().axioms.len() implies 0
                    <= #[trigger] self.model().axioms[i].0 < self.model().nodes.len() && 0
                    <= self.model().axioms[i].1 < self.model().nodes.len() by {
                    assert(self.model().nodes == mb.nodes);
                    if i < mb.axioms.len() {
                        assert(self.model().axioms[i] == mb.axioms[i]);
                    } else {
                        assert(self.model().axioms[i] == (hl as int, hr as int));
                    }
                }
                assert forall|i: int| 0 <= i < self.model().nodes.len() implies wf_node_at(
                    self.model(),
                    i,
                ) by {
                    assert(wf_node_at(mb, i));
                    assert(self.model().nodes == mb.nodes);
                    assert(self.model().fun_names == mb.fun_names);
                }
            }
        }
        Ok(())
    }

    /// How many sorts have been declared (their ids are `0..count`).
    pub fn sort_count(&self) -> (n: usize)
        ensures
            n == self.model().sorts.len(),
    {
        self.context.sorts.len()
    }

    /// The id of a declared sort name, if any.
    pub fn sort_id(&self, name: &String) -> (r: Option<usize>)
        ensures
            match r {
                Some(i) => i as int == find_first(self.model().sorts, name@),
                None => find_first(self.model().sorts, name@) < 0,
            },
    {
        self.context.find_sort(name)
    }

    /// The id of a declared function name, if any.
    pub fn function_id(&self, name: &String) -> (r: Option<usize>)
        ensures
            match r {
                Some(i) => i as int == find_first(self.model().fun_names, name@),
                None => find_first(self.model().fun_names, name@) < 0,
            },
    {
        self.context.find_fun(name)
    }

    /// How many function symbols have been declared.
    pub fn function_count(&self) -> (n: usize)
        ensures
            n == self.model().fun_names.len(),
    {
        self.context.fun_names.len()
    }

    /// How many canonical terms the pool holds.
    pub fn term_count(&self) -> (n: usize)
        ensures
            n == self.model().nodes.len(),
    {
        self.terms.len()
    }

    /// How many axioms are stored.
    pub fn axiom_count(&self) -> (n: usize)
        ensures
            n == self.model().axioms.len(),
    {
        self.axioms.len()
    }
}

} // verus!
