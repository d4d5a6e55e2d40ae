//! The pattern tree built from an example snippet, and its serialization
//! into the structural matcher's s-expression pattern syntax.

use vstd::math::min;
use vstd::prelude::*;

use crate::strutil::str_eq;

verus! {

/// A pattern tree node.
///
/// `Container` stands for a grammar production the compiler recurses into;
/// children absent from the example are omitted, not wildcarded. `Fixed` is
/// a leaf whose literal text must match exactly (pinned by an accompanying
/// `Eq` constraint). `Referenced` is a leaf overridden by an embedded
/// operator: structurally a wildcard, but captured so a constraint can be
/// evaluated against the matched text. `Any` matches any subtree.
#[derive(Debug)]
pub enum AST {
    Container { kind: String, children: Vec<AST> },
    Fixed { kind: String, reference: String },
    Referenced { reference: String },
    Any,
}

/// The mathematical shape of a pattern tree.
#[verifier::ext_equal]
pub enum AstView {
    Container { kind: Seq<char>, children: Seq<AstView> },
    Fixed { kind: Seq<char>, reference: Seq<char> },
    Referenced { reference: Seq<char> },
    Any,
}

pub open spec fn ast_view(a: AST) -> AstView
    decreases a,
{
    match a {
        AST::Container { kind, children } => AstView::Container {
            kind: kind@,
            children: ast_views(children@),
        },
        AST::Fixed { kind, reference } => AstView::Fixed { kind: kind@, reference: reference@ },
        AST::Referenced { reference } => AstView::Referenced { reference: reference@ },
        AST::Any => AstView::Any,
    }
}

pub open spec fn ast_views(cs: Seq<AST>) -> Seq<AstView>
    decreases cs,
{
    if cs.len() == 0 {
        Seq::empty()
    } else {
        ast_views(cs.drop_last()).push(ast_view(cs.last()))
    }
}

impl View for AST {
    type V = AstView;

    open spec fn view(&self) -> AstView {
        ast_view(*self)
    }
}

pub broadcast proof fn lemma_ast_views_len(cs: Seq<AST>)
    ensures
        #[trigger] ast_views(cs).len() == cs.len(),
    decreases cs,
{
    if cs.len() > 0 {
        lemma_ast_views_len(cs.drop_last());
    }
}

pub broadcast proof fn lemma_ast_views_index(cs: Seq<AST>, i: int)
    requires
        0 <= i < cs.len(),
    ensures
        #[trigger] ast_views(cs)[i] == ast_view(cs[i]),
    decreases cs,
{
    lemma_ast_views_len(cs);
    if i == cs.len() - 1 {
    } else {
        lemma_ast_views_index(cs.drop_last(), i);
    }
}

/// The s-expression the compiler writes for one pattern tree node.
///
/// A container is written `(kind child1 child2 ... )`, each child followed
/// by a space; the designated entity kind additionally receives the
/// distinguished `result` capture. A fixed leaf is written `(kind) @ref`,
/// a referenced leaf `(*) @ref`, and a wildcard `(*)`.
pub open spec fn sexp_of(a: AstView) -> Seq<char>
    decreases a,
{
    match a {
        AstView::Any => "(*)"@,
        AstView::Container { kind, children } => "("@ + kind + " "@ + sexp_of_children(children)
            + ")"@ + (if kind == "resource"@ {
            " @result"@
        } else {
            Seq::<char>::empty()
        }),
        AstView::Fixed { kind, reference } => "("@ + kind + ") @"@ + reference,
        AstView::Referenced { reference } => "(*) @"@ + reference,
    }
}

pub open spec fn sexp_of_children(cs: Seq<AstView>) -> Seq<char>
    decreases cs,
{
    if cs.len() == 0 {
        Seq::empty()
    } else {
        sexp_of_children(cs.drop_last()) + sexp_of(cs.last()) + " "@
    }
}

/// The capture names appearing in a node's serialization, in order of
/// appearance and without the leading `@`.
pub open spec fn captures_of(a: AstView) -> Seq<Seq<char>>
    decreases a,
{
    match a {
        AstView::Any => Seq::empty(),
        AstView::Container { kind, children } => captures_of_children(children) + (if kind
            == "resource"@ {
            seq!["result"@]
        } else {
            Seq::<Seq<char>>::empty()
        }),
        AstView::Fixed { kind, reference } => seq![reference],
        AstView::Referenced { reference } => seq![reference],
    }
}

pub open spec fn captures_of_children(cs: Seq<AstView>) -> Seq<Seq<char>>
    decreases cs,
{
    if cs.len() == 0 {
        Seq::empty()
    } else {
        captures_of_children(cs.drop_last()) + captures_of(cs.last())
    }
}


/// The scanner state of the engine's pattern lexer, as far as
/// parenthesis counting needs it: whether the position stands inside a
/// string literal, whether the previous character was an unconsumed
/// escape, the running parenthesis balance, and the least balance any
/// prefix has reached.
pub struct ScanState {
    pub in_str: bool,
    pub esc: bool,
    pub bal: int,
    pub low: int,
}

/// How one character advances the scanner. Inside a string literal only
/// the escape and the closing quote matter; outside, quotes open a
/// string and parentheses move the balance.
pub open spec fn scan_char(st: ScanState, c: char) -> ScanState {
    if st.in_str {
        if st.esc {
            ScanState { in_str: true, esc: false, bal: st.bal, low: st.low }
        } else if c == '\\' {
            ScanState { in_str: true, esc: true, bal: st.bal, low: st.low }
        } else if c == '"' {
            ScanState { in_str: false, esc: false, bal: st.bal, low: st.low }
        } else {
            st
        }
    } else {
        if c == '"' {
            ScanState { in_str: true, esc: false, bal: st.bal, low: st.low }
        } else if c == '(' {
            ScanState { in_str: false, esc: false, bal: st.bal + 1, low: min(st.low, st.bal + 1) }
        } else if c == ')' {
            ScanState { in_str: false, esc: false, bal: st.bal - 1, low: min(st.low, st.bal - 1) }
        } else {
            st
        }
    }
}

/// The scanner state after reading a whole text.
pub open spec fn scan(s: Seq<char>, st: ScanState) -> ScanState
    decreases s.len(),
{
    if s.len() == 0 {
        st
    } else {
        scan_char(scan(s.drop_last(), st), s.last())
    }
}

/// The state a well-formed query text is scanned from: outside any
/// string, with balance and least balance zero.
pub open spec fn scan_start() -> ScanState {
    ScanState { in_str: false, esc: false, bal: 0, low: 0 }
}

/// An out-of-string scanner state whose least balance is consistent.
pub open spec fn scan_ok(st: ScanState) -> bool {
    !st.in_str && !st.esc && st.low <= st.bal
}

pub proof fn lemma_scan_single(c: char, st: ScanState)
    ensures
        scan(seq![c], st) == scan_char(st, c),
{
    assert(seq![c].drop_last() =~= Seq::<char>::empty());
    assert(scan(Seq::<char>::empty(), st) == st);
    assert(seq![c].last() == c);
}

pub proof fn lemma_scan_pair(a: char, b: char, st: ScanState)
    ensures
        scan(seq![a, b], st) == scan_char(scan_char(st, a), b),
{
    assert(seq![a, b].drop_last() =~= seq![a]);
    lemma_scan_single(a, st);
    assert(seq![a, b].last() == b);
}

pub proof fn lemma_scan_concat(x: Seq<char>, y: Seq<char>, st: ScanState)
    ensures
        scan(x + y, st) == scan(y, scan(x, st)),
    decreases y.len(),
{
    if y.len() == 0 {
        assert(x + y =~= x);
    } else {
        lemma_scan_concat(x, y.drop_last(), st);
        assert((x + y).drop_last() =~= x + y.drop_last());
        assert((x + y).last() == y.last());
    }
}

/// A token character: anything the scanner passes over without effect
/// when standing outside a string.
pub open spec fn plain_char(c: char) -> bool {
    c != '(' && c != ')' && c != '"' && c != '\\'
}

/// A text of token characters alone: a grammar kind, a reference, an
/// operator name.
pub open spec fn token_clean(s: Seq<char>) -> bool {
    forall|i: int| 0 <= i < s.len() ==> plain_char(#[trigger] s[i])
}

pub proof fn lemma_token_clean_concat(x: Seq<char>, y: Seq<char>)
    requires
        token_clean(x),
        token_clean(y),
    ensures
        token_clean(x + y),
{
    assert forall|i: int| 0 <= i < (x + y).len() implies plain_char(#[trigger] (x + y)[i]) by {
        if i < x.len() {
            assert((x + y)[i] == x[i]);
        } else {
            assert((x + y)[i] == y[i - x.len()]);
        }
    }
}

/// Scanning a token text from an out-of-string state changes nothing.
pub proof fn lemma_scan_clean(s: Seq<char>, st: ScanState)
    requires
        token_clean(s),
        !st.in_str,
        !st.esc,
    ensures
        scan(s, st) == st,
    decreases s.len(),
{
    if s.len() > 0 {
        assert(token_clean(s.drop_last())) by {
            assert forall|i: int| 0 <= i < s.drop_last().len() implies plain_char(
                #[trigger] s.drop_last()[i],
            ) by {
                assert(s.drop_last()[i] == s[i]);
            }
        }
        lemma_scan_clean(s.drop_last(), st);
        assert(plain_char(s.last()));
    }
}

/// The serialization tokens of a pattern tree are token texts: its kinds
/// and references hold no parenthesis, quote, or backslash of their own.
pub open spec fn tokens_wf(a: AstView) -> bool
    decreases a,
{
    match a {
        AstView::Any => true,
        AstView::Container { kind, children } => token_clean(kind) && tokens_wf_children(children),
        AstView::Fixed { kind, reference } => token_clean(kind) && token_clean(reference),
        AstView::Referenced { reference } => token_clean(reference),
    }
}

pub open spec fn tokens_wf_children(cs: Seq<AstView>) -> bool
    decreases cs,
{
    if cs.len() == 0 {
        true
    } else {
        tokens_wf_children(cs.drop_last()) && tokens_wf(cs.last())
    }
}

pub proof fn lemma_scan_open(st: ScanState)
    requires
        scan_ok(st),
    ensures
        scan("("@, st) == (ScanState { in_str: false, esc: false, bal: st.bal + 1, low: st.low }),
        scan_ok(scan("("@, st)),
        scan("("@, st).bal == st.bal + 1,
{
    reveal_strlit("(");
    assert("("@ =~= seq!['(']);
    assert(seq!['('].drop_last() =~= Seq::<char>::empty());
    assert(scan(Seq::<char>::empty(), st) == st);
    assert(min(st.low, st.bal + 1) == st.low);
}

pub proof fn lemma_scan_close(st: ScanState)
    requires
        !st.in_str,
        !st.esc,
    ensures
        scan(")"@, st) == (ScanState {
            in_str: false,
            esc: false,
            bal: st.bal - 1,
            low: min(st.low, st.bal - 1),
        }),
{
    reveal_strlit(")");
    assert(")"@ =~= seq![')']);
    assert(seq![')'].drop_last() =~= Seq::<char>::empty());
    assert(scan(Seq::<char>::empty(), st) == st);
}

proof fn lemma_space_clean()
    ensures
        token_clean(" "@),
{
    reveal_strlit(" ");
    assert(" "@ =~= seq![' ']);
    assert(plain_char(" "@[0]));
}

proof fn lemma_result_clean()
    ensures
        token_clean(" @result"@),
{
    reveal_strlit(" @result");
    assert(" @result"@ =~= seq![' ', '@', 'r', 'e', 's', 'u', 'l', 't']);
    assert(forall|i: int| 0 <= i < " @result"@.len() ==> plain_char(#[trigger] " @result"@[i]));
}

proof fn lemma_scan_wild(st: ScanState)
    requires
        scan_ok(st),
    ensures
        scan("(*)"@, st) == st,
{
    reveal_strlit("(*)");
    assert("(*)"@ =~= ("("@ + seq!['*']) + ")"@) by {
        reveal_strlit("(");
        reveal_strlit(")");
    }
    lemma_scan_open(st);
    let st1 = scan("("@, st);
    assert(token_clean(seq!['*'])) by {
        assert(plain_char(seq!['*'][0]));
    }
    lemma_scan_clean(seq!['*'], st1);
    lemma_scan_close(st1);
    lemma_scan_concat("("@, seq!['*'], st);
    lemma_scan_concat("("@ + seq!['*'], ")"@, st);
    assert(min(st.low, st1.bal - 1) == st.low);
}

proof fn lemma_scan_wild_at(st: ScanState)
    requires
        scan_ok(st),
    ensures
        scan("(*) @"@, st) == st,
{
    reveal_strlit("(*) @");
    assert("(*) @"@ =~= "(*)"@ + seq![' ', '@']) by {
        reveal_strlit("(*)");
    }
    lemma_scan_wild(st);
    assert(token_clean(seq![' ', '@'])) by {
        assert(plain_char(seq![' ', '@'][0]));
        assert(plain_char(seq![' ', '@'][1]));
    }
    lemma_scan_clean(seq![' ', '@'], st);
    lemma_scan_concat("(*)"@, seq![' ', '@'], st);
}

proof fn lemma_scan_close_at(st: ScanState)
    requires
        !st.in_str,
        !st.esc,
    ensures
        scan(") @"@, st) == (ScanState {
            in_str: false,
            esc: false,
            bal: st.bal - 1,
            low: min(st.low, st.bal - 1),
        }),
{
    reveal_strlit(") @");
    assert(") @"@ =~= ")"@ + seq![' ', '@']) by {
        reveal_strlit(")");
    }
    lemma_scan_close(st);
    let st1 = scan(")"@, st);
    assert(token_clean(seq![' ', '@'])) by {
        assert(plain_char(seq![' ', '@'][0]));
        assert(plain_char(seq![' ', '@'][1]));
    }
    lemma_scan_clean(seq![' ', '@'], st1);
    lemma_scan_concat(")"@, seq![' ', '@'], st);
}

/// Scanning the serialization of a token-well-formed pattern tree from
/// any consistent out-of-string state changes nothing: every parenthesis
/// it opens it closes again, it never closes one it did not open, and it
/// leaves no string literal hanging open.
pub proof fn lemma_sexp_scan(a: AstView, st: ScanState)
    requires
        tokens_wf(a),
        scan_ok(st),
    ensures
        scan(sexp_of(a), st) == st,
    decreases a,
{
    match a {
        AstView::Any => {
            lemma_scan_wild(st);
        },
        AstView::Fixed { kind, reference } => {
            lemma_scan_open(st);
            let st1 = scan("("@, st);
            lemma_scan_clean(kind, st1);
            lemma_scan_close_at(st1);
            let st2 = scan(") @"@, st1);
            assert(min(st.low, st1.bal - 1) == st.low);
            assert(st2 == st);
            lemma_scan_clean(reference, st2);
            lemma_scan_concat("("@, kind, st);
            lemma_scan_concat("("@ + kind, ") @"@, st);
            lemma_scan_concat("("@ + kind + ") @"@, reference, st);
        },
        AstView::Referenced { reference } => {
            lemma_scan_wild_at(st);
            lemma_scan_clean(reference, st);
            lemma_scan_concat("(*) @"@, reference, st);
        },
        AstView::Container { kind, children } => {
            lemma_scan_open(st);
            let st1 = scan("("@, st);
            lemma_scan_clean(kind, st1);
            lemma_space_clean();
            lemma_scan_clean(" "@, st1);
            lemma_sexp_children_scan(children, st1);
            lemma_scan_close(st1);
            let st2 = scan(")"@, st1);
            assert(min(st.low, st1.bal - 1) == st.low);
            assert(st2 == st);
            lemma_scan_concat("("@, kind, st);
            lemma_scan_concat("("@ + kind, " "@, st);
            lemma_scan_concat("("@ + kind + " "@, sexp_of_children(children), st);
            lemma_scan_concat("("@ + kind + " "@ + sexp_of_children(children), ")"@, st);
            if kind == "resource"@ {
                lemma_result_clean();
                lemma_scan_clean(" @result"@, st);
                lemma_scan_concat(
                    "("@ + kind + " "@ + sexp_of_children(children) + ")"@,
                    " @result"@,
                    st,
                );
            } else {
                assert(("("@ + kind + " "@ + sexp_of_children(children) + ")"@)
                    + Seq::<char>::empty() =~= "("@ + kind + " "@ + sexp_of_children(children)
                    + ")"@);
            }
        },
    }
}

pub proof fn lemma_sexp_children_scan(cs: Seq<AstView>, st: ScanState)
    requires
        tokens_wf_children(cs),
        scan_ok(st),
    ensures
        scan(sexp_of_children(cs), st) == st,
    decreases cs,
{
    if cs.len() > 0 {
        lemma_sexp_children_scan(cs.drop_last(), st);
        lemma_sexp_scan(cs.last(), st);
        lemma_space_clean();
        lemma_scan_clean(" "@, st);
        lemma_scan_concat(sexp_of_children(cs.drop_last()), sexp_of(cs.last()), st);
        lemma_scan_concat(sexp_of_children(cs.drop_last()) + sexp_of(cs.last()), " "@, st);
    }
}

/// Anything whose serialization into the engine's pattern syntax is pinned
/// by a specification.
pub trait ToSexp {
    spec fn sexp_spec(&self) -> Seq<char>;

    fn to_sexp(&self) -> (r: String)
        ensures
            r@ == self.sexp_spec(),
    ;
}

impl AST {
    /// Serializes this pattern tree node.
    #[verifier::loop_isolation(false)]
    pub fn sexp(&self) -> (r: String)
        ensures
            r@ == sexp_of(self@),
        decreases *self,
    {
        match self {
            AST::Any => {
                let mut s = String::new();
                s.append("(*)");
                proof {
                    assert(s@ =~= "(*)"@);
                }
                s
            },
            AST::Fixed { kind, reference } => {
                let mut s = String::new();
                s.append("(");
                s.append(kind.as_str());
                s.append(") @");
                s.append(reference.as_str());
                proof {
                    assert(s@ =~= "("@ + kind@ + ") @"@ + reference@);
                }
                s
            },
            AST::Referenced { reference } => {
                let mut s = String::new();
                s.append("(*) @");
                s.append(reference.as_str());
                proof {
                    assert(s@ =~= "(*) @"@ + reference@);
                }
                s
            },
            AST::Container { kind, children } => {
                let ghost cv = ast_views(children@);
                proof {
                    lemma_ast_views_len(children@);
                }
                let mut s = String::new();
                s.append("(");
                s.append(kind.as_str());
                s.append(" ");
                proof {
                    assert(cv.subrange(0, 0) =~= Seq::<AstView>::empty());
                    assert(s@ =~= "("@ + kind@ + " "@ + sexp_of_children(cv.subrange(0, 0)));
                }
                let n = children.len();
                let mut i: usize = 0;
                while i < n
                    invariant
                        i <= n,
                        n == children@.len(),
                        cv == ast_views(children@),
                        cv.len() == n,
                        s@ == "("@ + kind@ + " "@ + sexp_of_children(cv.subrange(0, i as int)),
                    decreases n - i,
                {
                    proof {
                        lemma_ast_views_index(children@, i as int);
                        assert(decreases_to!(*self => children@[i as int]));
                    }
                    let child = &children[i];
                    let child_s = child.sexp();
                    s.append(child_s.as_str());
                    s.append(" ");
                    proof {
                        let pre = cv.subrange(0, i as int);
                        let cur = cv.subrange(0, i + 1);
                        assert(cur.drop_last() =~= pre);
                        assert(cur.last() == cv[i as int]);
                        assert(s@ =~= "("@ + kind@ + " "@ + sexp_of_children(cur));
                    }
                    i = i + 1;
                }
                proof {
                    assert(cv.subrange(0, n as int) =~= cv);
                }
                s.append(")");
                if str_eq(kind.as_str(), "resource") {
                    s.append(" @result");
                    proof {
                        assert(s@ =~= sexp_of(self@));
                    }
                    s
                } else {
                    proof {
                        assert(s@ =~= "("@ + kind@ + " "@ + sexp_of_children(cv) + ")"@);
                        assert(s@ + Seq::<char>::empty() =~= s@);
                        assert(s@ =~= sexp_of(self@));
                    }
                    s
                }
            },
        }
    }

    /// The capture names of this node's serialization, in order.
    #[verifier::loop_isolation(false)]
    pub fn captures(&self) -> (r: Vec<String>)
        ensures
            strs_view(r@) == captures_of(self@),
        decreases *self,
    {
        match self {
            AST::Any => {
                let r: Vec<String> = Vec::new();
                proof {
                    assert(strs_view(r@) =~= captures_of(self@));
                }
                r
            },
            AST::Fixed { kind: _, reference } => {
                let mut r: Vec<String> = Vec::new();
                r.push(reference.clone());
                proof {
                    assert(strs_view(r@) =~= captures_of(self@));
                }
                r
            },
            AST::Referenced { reference } => {
                let mut r: Vec<String> = Vec::new();
                r.push(reference.clone());
                proof {
                    assert(strs_view(r@) =~= captures_of(self@));
                }
                r
            },
            AST::Container { kind, children } => {
                let ghost cv = ast_views(children@);
                proof {
                    lemma_ast_views_len(children@);
                }
                let mut r: Vec<String> = Vec::new();
                proof {
                    assert(cv.subrange(0, 0) =~= Seq::<AstView>::empty());
                    assert(strs_view(r@) =~= captures_of_children(cv.subrange(0, 0)));
                }
                let n = children.len();
                let mut i: usize = 0;
                while i < n
                    invariant
                        i <= n,
                        n == children@.len(),
                        cv == ast_views(children@),
                        cv.len() == n,
                        strs_view(r@) == captures_of_children(cv.subrange(0, i as int)),
                    decreases n - i,
                {
                    proof {
                        lemma_ast_views_index(children@, i as int);
                        assert(decreases_to!(*self => children@[i as int]));
                    }
                    let child = &children[i];
                    let mut child_caps = child.captures();
                    let ghost old_r = r@;
                    let ghost old_caps = child_caps@;
                    r.append(&mut child_caps);
                    proof {
                        let pre = cv.subrange(0, i as int);
                        let cur = cv.subrange(0, i + 1);
                        assert(cur.drop_last() =~= pre);
                        assert(cur.last() == cv[i as int]);
                        assert(strs_view(old_r + old_caps) =~= strs_view(old_r) + strs_view(
                            old_caps,
                        ));
                        assert(strs_view(r@) =~= captures_of_children(cur));
                    }
                    i = i + 1;
                }
                proof {
                    assert(cv.subrange(0, n as int) =~= cv);
                }
                if str_eq(kind.as_str(), "resource") {
                    r.push(String::from_str("result"));
                    proof {
                        assert(strs_view(r@) =~= captures_of(self@));
                    }
                    r
                } else {
                    proof {
                        assert(captures_of_children(cv) + Seq::<Seq<char>>::empty()
                            =~= captures_of_children(cv));
                        assert(strs_view(r@) =~= captures_of(self@));
                    }
                    r
                }
            },
        }
    }
}

/// The views of a sequence of strings.
pub open spec fn strs_view(v: Seq<String>) -> Seq<Seq<char>> {
    v.map_values(|s: String| s@)
}

impl ToSexp for AST {
    open spec fn sexp_spec(&self) -> Seq<char> {
        sexp_of(self@)
    }

    fn to_sexp(&self) -> (r: String) {
        self.sexp()
    }
}

} // verus!
