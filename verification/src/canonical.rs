//! The content canonicalizer: turns raw fetched markup into a normalized,
//! comparable text representation.
//!
//! The markup grammar the canonicalizer understands is deliberately small and
//! total: a tag starts at `<` and runs to the next `>` (or to the end of the
//! input when none follows); everything between tags is a text node.  A tag
//! whose content starts with `/` closes the element named by the word after
//! the slash; any other tag opens the element named by its leading word, and
//! counts as self-closing when the tag content ends with `/`.  No input is
//! rejected: malformed markup still tokenizes, it merely matches nothing.

use vstd::prelude::*;

verus! {

use crate::text::{is_space_char, is_space, trimmed, trim, chars_of, string_of, str_eq};

/// One token of the markup: a text node, an opening tag (name, raw attribute
/// text, self-closing flag), or a closing tag (name).
pub enum Token {
    Text(Vec<char>),
    Open(Vec<char>, Vec<char>, bool),
    Close(Vec<char>),
}

/// The mathematical shape of a token.
pub enum TokenView {
    Text(Seq<char>),
    Open(Seq<char>, Seq<char>, bool),
    Close(Seq<char>),
}

impl View for Token {
    type V = TokenView;

    open spec fn view(&self) -> TokenView {
        match self {
            Token::Text(t) => TokenView::Text(t@),
            Token::Open(name, attrs, sc) => TokenView::Open(name@, attrs@, *sc),
            Token::Close(name) => TokenView::Close(name@),
        }
    }
}

/// The first position at or after `from` holding `c`, or the length of `s`
/// when no such position exists.
pub open spec fn find_from(s: Seq<char>, c: char, from: int) -> int
    decreases s.len() - from,
{
    if from < 0 || from >= s.len() {
        s.len() as int
    } else if s[from] == c {
        from
    } else {
        find_from(s, c, from + 1)
    }
}

/// What `find_from` returns: a position in range, holding `c` when one
/// exists, with nothing but other characters before it.
pub proof fn lemma_find_from(s: Seq<char>, c: char, from: int)
    requires
        0 <= from <= s.len(),
    ensures
        from <= find_from(s, c, from) <= s.len(),
        find_from(s, c, from) < s.len() ==> s[find_from(s, c, from)] == c,
        forall|j: int| from <= j < find_from(s, c, from) ==> s[j] != c,
    decreases s.len() - from,
{
    if from < s.len() && s[from] != c {
        lemma_find_from(s, c, from + 1);
    }
}

/// `find_from` looks the same whether the prefix before `i` is cut away or
/// skipped by the start position.
pub proof fn lemma_find_from_shift(s: Seq<char>, c: char, i: int, k: int)
    requires
        0 <= i,
        0 <= k,
        i + k <= s.len(),
    ensures
        find_from(s.subrange(i, s.len() as int), c, k) == find_from(s, c, i + k) - i,
    decreases s.len() - i - k,
{
    let t = s.subrange(i, s.len() as int);
    if k >= t.len() {
    } else {
        assert(t[k] == s[i + k]);
        if s[i + k] != c {
            lemma_find_from_shift(s, c, i, k + 1);
        }
    }
}

/// Finds the first occurrence of `c` at or after `from`.
pub fn find_char(v: &Vec<char>, c: char, from: usize) -> (r: usize)
    requires
        from <= v@.len(),
    ensures
        r == find_from(v@, c, from as int),
        from <= r <= v@.len(),
        r < v@.len() ==> v@[r as int] == c,
    decreases v@.len() - from,
{
    proof {
        lemma_find_from(v@, c, from as int);
    }
    let n = v.len();
    let mut i: usize = from;
    while i < n
        invariant
            from <= i <= n,
            n == v@.len(),
            find_from(v@, c, from as int) == find_from(v@, c, i as int),
        decreases n - i,
    {
        if v[i] == c {
            return i;
        }
        i = i + 1;
    }
    n
}

/// The first position at or after `from` holding whitespace or `/` (the end
/// of a tag name), or the length of `s`.
pub open spec fn name_end_from(s: Seq<char>, from: int) -> int
    decreases s.len() - from,
{
    if from < 0 || from >= s.len() {
        s.len() as int
    } else if is_space_char(s[from]) || s[from] == '/' {
        from
    } else {
        name_end_from(s, from + 1)
    }
}

/// The end of a tag name lies between its start and the end of the text.
pub proof fn lemma_name_end_from(s: Seq<char>, from: int)
    requires
        0 <= from <= s.len(),
    ensures
        from <= name_end_from(s, from) <= s.len(),
    decreases s.len() - from,
{
    if from < s.len() && !(is_space_char(s[from]) || s[from] == '/') {
        lemma_name_end_from(s, from + 1);
    }
}

/// Finds the end of the tag name starting at `from`.
fn name_end(v: &Vec<char>, from: usize) -> (r: usize)
    requires
        from <= v@.len(),
    ensures
        r == name_end_from(v@, from as int),
        from <= r <= v@.len(),
{
    proof {
        lemma_name_end_from(v@, from as int);
    }
    let n = v.len();
    let mut i: usize = from;
    while i < n
        invariant
            from <= i <= n,
            n == v@.len(),
            name_end_from(v@, from as int) == name_end_from(v@, i as int),
        decreases n - i,
    {
        if is_space(v[i]) || v[i] == '/' {
            return i;
        }
        i = i + 1;
    }
    n
}

/// Copies the characters of `v` between `a` and `b`.
pub fn subvec(v: &Vec<char>, a: usize, b: usize) -> (r: Vec<char>)
    requires
        a <= b <= v@.len(),
    ensures
        r@ == v@.subrange(a as int, b as int),
{
    let mut r: Vec<char> = Vec::new();
    let mut k: usize = a;
    while k < b
        invariant
            a <= k <= b <= v@.len(),
            r@ == v@.subrange(a as int, k as int),
        decreases b - k,
    {
        r.push(v[k]);
        proof {
            assert(v@.subrange(a as int, k as int + 1) =~= v@.subrange(a as int, k as int).push(
                v@[k as int],
            ));
        }
        k = k + 1;
    }
    r
}

/// The token denoted by the text `t` standing between `<` and `>`.
pub open spec fn parse_tag(t: Seq<char>) -> TokenView {
    if t.len() > 0 && t[0] == '/' {
        TokenView::Close(t.subrange(1, name_end_from(t, 1)))
    } else {
        TokenView::Open(
            t.subrange(0, name_end_from(t, 0)),
            t.subrange(name_end_from(t, 0), t.len() as int),
            t.len() > 0 && t.last() == '/',
        )
    }
}

/// Classifies the text of one tag.
pub fn parse_tag_exec(t: &Vec<char>) -> (tok: Token)
    ensures
        tok@ == parse_tag(t@),
{
    let n = t.len();
    if n > 0 && t[0] == '/' {
        let ne = name_end(t, 1);
        Token::Close(subvec(t, 1, ne))
    } else {
        let ne = name_end(t, 0);
        let name = subvec(t, 0, ne);
        let attrs = subvec(t, ne, n);
        let self_closing = n > 0 && t[n - 1] == '/';
        Token::Open(name, attrs, self_closing)
    }
}

/// The token stream of the markup `s`: tags delimited by `<` and `>`, text
/// nodes between them.  Total on every input.
pub open spec fn spec_tokenize(s: Seq<char>) -> Seq<TokenView>
    decreases s.len(),
{
    if s.len() == 0 {
        Seq::empty()
    } else if s[0] == '<' {
        let j = find_from(s, '>', 1);
        let jt = if j < 1 {
            1
        } else if j > s.len() {
            s.len() as int
        } else {
            j
        };
        let cut = if jt + 1 > s.len() {
            s.len() as int
        } else {
            jt + 1
        };
        seq![parse_tag(s.subrange(1, jt))] + spec_tokenize(s.subrange(cut, s.len() as int))
    } else {
        let j = find_from(s, '<', 0);
        let cut = if j < 1 {
            1
        } else if j > s.len() {
            s.len() as int
        } else {
            j
        };
        seq![TokenView::Text(s.subrange(0, cut))] + spec_tokenize(s.subrange(cut, s.len() as int))
    }
}

/// Splits a character buffer into its token stream.
pub fn tokenize(v: &Vec<char>) -> (r: Vec<Token>)
    ensures
        r@.map_values(|t: Token| t@) == spec_tokenize(v@),
{
    let n = v.len();
    let mut toks: Vec<Token> = Vec::new();
    let mut i: usize = 0;
    proof {
        assert(v@.subrange(0, n as int) =~= v@);
        assert(toks@.map_values(|t: Token| t@) =~= Seq::<TokenView>::empty());
    }
    while i < n
        invariant
            i <= n,
            n == v@.len(),
            spec_tokenize(v@) == toks@.map_values(|t: Token| t@) + spec_tokenize(
                v@.subrange(i as int, n as int),
            ),
        decreases n - i,
    {
        let ghost suffix = v@.subrange(i as int, n as int);
        let ghost old_toks = toks@;
        let next_i: usize;
        if v[i] == '<' {
            let j = find_char(v, '>', i + 1);
            proof {
                lemma_find_from_shift(v@, '>', i as int, 1);
                assert(find_from(suffix, '>', 1) == j - i);
            }
            let tag = subvec(v, i + 1, j);
            proof {
                assert(suffix.subrange(1, j - i) =~= v@.subrange(i as int + 1, j as int));
            }
            let tok = parse_tag_exec(&tag);
            toks.push(tok);
            next_i = if j < n {
                j + 1
            } else {
                n
            };
            proof {
                assert(suffix.subrange(next_i - i, suffix.len() as int) =~= v@.subrange(
                    next_i as int,
                    n as int,
                ));
                assert(spec_tokenize(suffix) == seq![tok@] + spec_tokenize(
                    v@.subrange(next_i as int, n as int),
                ));
            }
        } else {
            let j = find_char(v, '<', i);
            proof {
                lemma_find_from_shift(v@, '<', i as int, 0);
                assert(find_from(suffix, '<', 0) == j - i);
            }
            let piece = subvec(v, i, j);
            proof {
                assert(suffix.subrange(0, j - i) =~= v@.subrange(i as int, j as int));
            }
            let tok = Token::Text(piece);
            toks.push(tok);
            next_i = j;
            proof {
                assert(suffix.subrange(next_i - i, suffix.len() as int) =~= v@.subrange(
                    next_i as int,
                    n as int,
                ));
                assert(spec_tokenize(suffix) == seq![tok@] + spec_tokenize(
                    v@.subrange(next_i as int, n as int),
                ));
            }
        }
        proof {
            let f = |t: Token| t@;
            let last = toks@.last();
            assert(toks@.map_values(f) =~= old_toks.map_values(f) + seq![last@]);
            assert(old_toks.map_values(f) + seq![last@] + spec_tokenize(
                v@.subrange(next_i as int, n as int),
            ) =~= old_toks.map_values(f) + (seq![last@] + spec_tokenize(
                v@.subrange(next_i as int, n as int),
            )));
        }
        i = next_i;
    }
    proof {
        assert(v@.subrange(n as int, n as int) =~= Seq::<char>::empty());
        assert(toks@.map_values(|t: Token| t@) + Seq::<TokenView>::empty() =~= toks@.map_values(
            |t: Token| t@,
        ));
    }
    toks
}

/// One extraction rule of the selector chain: a tag name, optionally
/// restricted to elements carrying a given `class` attribute value.
pub struct Selector {
    pub tag: Vec<char>,
    pub class: Option<Vec<char>>,
}

/// The mathematical shape of a selector.
pub struct SelectorView {
    pub tag: Seq<char>,
    pub class: Option<Seq<char>>,
}

impl View for Selector {
    type V = SelectorView;

    open spec fn view(&self) -> SelectorView {
        SelectorView {
            tag: self.tag@,
            class: match self.class {
                Option::None => Option::None,
                Option::Some(c) => Option::Some(c@),
            },
        }
    }
}

impl Selector {
    /// A selector for elements with the given tag name and, when one is
    /// given, the given `class` attribute value.
    pub fn new(tag: &str, class: Option<&str>) -> (r: Selector)
        ensures
            r@.tag == tag@,
            match class {
                Option::None => r@.class is None,
                Option::Some(c) => r@.class == Option::Some(c@),
            },
    {
        Selector {
            tag: chars_of(tag),
            class: match class {
                Option::None => Option::None,
                Option::Some(c) => Option::Some(chars_of(c)),
            },
        }
    }
}

/// Whether `pat` occurs in `s` starting at position `i`.
pub open spec fn matches_at(s: Seq<char>, pat: Seq<char>, i: int) -> bool {
    0 <= i && i + pat.len() <= s.len() && s.subrange(i, i + pat.len()) == pat
}

/// The attribute text that marks an element as carrying class `cls`.
pub open spec fn class_pat(cls: Seq<char>) -> Seq<char> {
    "class=\""@ + cls + "\""@
}

/// Whether the raw attribute text `attrs` carries the class value `cls`: the
/// pattern `class="cls"` occurs at the start of the text or right after
/// whitespace.
pub open spec fn has_class(attrs: Seq<char>, cls: Seq<char>) -> bool {
    exists|i: int|
        #[trigger] matches_at(attrs, class_pat(cls), i) && (i == 0 || is_space_char(attrs[i - 1]))
}

/// Whether an opening tag with the given name and attribute text matches the
/// selector.
pub open spec fn sel_matches(name: Seq<char>, attrs: Seq<char>, sel: SelectorView) -> bool {
    name == sel.tag && match sel.class {
        Option::None => true,
        Option::Some(c) => has_class(attrs, c),
    }
}

/// Whether two character buffers hold the same characters.
pub fn chars_eq(a: &Vec<char>, b: &Vec<char>) -> (r: bool)
    ensures
        r == (a@ == b@),
{
    let na = a.len();
    if na != b.len() {
        return false;
    }
    let mut i: usize = 0;
    while i < na
        invariant
            i <= na,
            na == a@.len(),
            na == b@.len(),
            forall|j: int| 0 <= j < i ==> a@[j] == b@[j],
        decreases na - i,
    {
        if a[i] != b[i] {
            return false;
        }
        i = i + 1;
    }
    proof {
        assert(a@ =~= b@);
    }
    true
}

/// Decides `matches_at` for a concrete position.
fn matches_at_exec(s: &Vec<char>, pat: &Vec<char>, i: usize) -> (r: bool)
    ensures
        r == matches_at(s@, pat@, i as int),
{
    let n = s.len();
    let m = pat.len();
    if i > n || m > n - i {
        return false;
    }
    let mut k: usize = 0;
    while k < m
        invariant
            k <= m,
            m == pat@.len(),
            n == s@.len(),
            i + m <= n,
            forall|j: int| 0 <= j < k ==> s@[i + j] == pat@[j],
        decreases m - k,
    {
        if s[i + k] != pat[k] {
            proof {
                assert(s@.subrange(i as int, i as int + m as int)[k as int] == s@[i + k]);
            }
            return false;
        }
        k = k + 1;
    }
    proof {
        assert(s@.subrange(i as int, i as int + m as int) =~= pat@);
    }
    true
}

/// Decides `has_class` against raw attribute text.
fn has_class_exec(attrs: &Vec<char>, cls: &Vec<char>) -> (r: bool)
    ensures
        r == has_class(attrs@, cls@),
{
    let mut pat = chars_of("class=\"");
    let m = cls.len();
    let mut k: usize = 0;
    while k < m
        invariant
            k <= m,
            m == cls@.len(),
            pat@ == "class=\""@ + cls@.take(k as int),
        decreases m - k,
    {
        pat.push(cls[k]);
        proof {
            assert(("class=\""@ + cls@.take(k as int)).push(cls@[k as int]) =~= "class=\""@
                + cls@.take(k as int + 1));
        }
        k = k + 1;
    }
    pat.push('"');
    proof {
        reveal_strlit("class=\"");
        reveal_strlit("\"");
        assert(cls@.take(m as int) =~= cls@);
        assert(("class=\""@ + cls@).push('"') =~= class_pat(cls@));
    }
    let n = attrs.len();
    let mut i: usize = 0;
    while i < n
        invariant
            i <= n,
            n == attrs@.len(),
            pat@ == class_pat(cls@),
            class_pat(cls@).len() >= 1,
            forall|j: int|
                0 <= j < i ==> !(#[trigger] matches_at(attrs@, class_pat(cls@), j) && (j == 0
                    || is_space_char(attrs@[j - 1]))),
        decreases n - i,
    {
        let at_boundary = i == 0 || is_space(attrs[i - 1]);
        if at_boundary && matches_at_exec(attrs, &pat, i) {
            return true;
        }
        i = i + 1;
    }
    proof {
        assert(forall|j: int|
            #[trigger] matches_at(attrs@, class_pat(cls@), j) ==> 0 <= j && j + class_pat(
                cls@,
            ).len() <= n);
    }
    false
}

/// Decides whether an opening tag matches the selector.
fn open_matches(name: &Vec<char>, attrs: &Vec<char>, sel: &Selector) -> (r: bool)
    ensures
        r == sel_matches(name@, attrs@, sel@),
{
    let tag_ok = chars_eq(name, &sel.tag);
    let class_ok = match &sel.class {
        Option::None => true,
        Option::Some(c) => has_class_exec(attrs, c),
    };
    tag_ok && class_ok
}

/// Whether any opening tag in the token stream matches the selector.
pub open spec fn stream_has_match(toks: Seq<TokenView>, sel: SelectorView) -> bool {
    exists|k: int|
        0 <= k < toks.len() && match #[trigger] toks[k] {
            TokenView::Open(name, attrs, _) => sel_matches(name, attrs, sel),
            _ => false,
        }
}

/// Decides whether the token stream holds a matching element.
pub fn any_match(toks: &Vec<Token>, sel: &Selector) -> (r: bool)
    ensures
        r == stream_has_match(toks@.map_values(|t: Token| t@), sel@),
{
    let ghost views = toks@.map_values(|t: Token| t@);
    let n = toks.len();
    let mut k: usize = 0;
    while k < n
        invariant
            k <= n,
            n == toks@.len(),
            views == toks@.map_values(|t: Token| t@),
            forall|j: int|
                0 <= j < k ==> !(match #[trigger] views[j] {
                    TokenView::Open(name, attrs, _) => sel_matches(name, attrs, sel@),
                    _ => false,
                }),
        decreases n - k,
    {
        match &toks[k] {
            Token::Open(name, attrs, _) => {
                if open_matches(name, attrs, sel) {
                    proof {
                        assert(views[k as int] == toks@[k as int]@);
                    }
                    return true;
                }
            },
            _ => {},
        }
        proof {
            assert(views[k as int] == toks@[k as int]@);
        }
        k = k + 1;
    }
    false
}

/// The trimmed, non-empty text nodes standing inside elements that match the
/// selector, in document order.  `depth` counts how deeply the walk stands
/// inside a matched element, tracked by tags with the selector's name.
pub open spec fn pieces(toks: Seq<TokenView>, sel: SelectorView, depth: nat) -> Seq<Seq<char>>
    decreases toks.len(),
{
    if toks.len() == 0 {
        Seq::empty()
    } else {
        let rest = toks.subrange(1, toks.len() as int);
        match toks[0] {
            TokenView::Text(t) => {
                let added: Seq<Seq<char>> = if depth > 0 && trimmed(t).len() > 0 {
                    seq![trimmed(t)]
                } else {
                    Seq::empty()
                };
                added + pieces(rest, sel, depth)
            },
            TokenView::Open(name, attrs, sc) => {
                let d2: nat = if sc {
                    depth
                } else if depth > 0 {
                    if name == sel.tag {
                        depth + 1
                    } else {
                        depth
                    }
                } else if sel_matches(name, attrs, sel) {
                    1
                } else {
                    0
                };
                pieces(rest, sel, d2)
            },
            TokenView::Close(name) => {
                let d2: nat = if depth > 0 && name == sel.tag {
                    (depth - 1) as nat
                } else {
                    depth
                };
                pieces(rest, sel, d2)
            },
        }
    }
}

/// Collects the trimmed, non-empty text nodes inside matching elements.
pub fn extract(toks: &Vec<Token>, sel: &Selector) -> (r: Vec<Vec<char>>)
    ensures
        r@.map_values(|p: Vec<char>| p@) == pieces(toks@.map_values(|t: Token| t@), sel@, 0),
{
    let ghost views = toks@.map_values(|t: Token| t@);
    let n = toks.len();
    let mut acc: Vec<Vec<char>> = Vec::new();
    let mut depth: usize = 0;
    let mut k: usize = 0;
    proof {
        assert(views.subrange(0, n as int) =~= views);
        assert(acc@.map_values(|p: Vec<char>| p@) =~= Seq::<Seq<char>>::empty());
    }
    while k < n
        invariant
            k <= n,
            depth <= k,
            n == toks@.len(),
            views == toks@.map_values(|t: Token| t@),
            pieces(views, sel@, 0) == acc@.map_values(|p: Vec<char>| p@) + pieces(
                views.subrange(k as int, n as int),
                sel@,
                depth as nat,
            ),
        decreases n - k,
    {
        let ghost suffix = views.subrange(k as int, n as int);
        let ghost old_acc = acc@;
        let ghost old_depth = depth as nat;
        proof {
            assert(suffix[0] == views[k as int]);
            assert(views[k as int] == toks@[k as int]@);
            assert(suffix.subrange(1, suffix.len() as int) =~= views.subrange(
                k as int + 1,
                n as int,
            ));
        }
        match &toks[k] {
            Token::Text(t) => {
                if depth > 0 {
                    let tr = trim(t);
                    if tr.len() > 0 {
                        acc.push(tr);
                        proof {
                            let f = |p: Vec<char>| p@;
                            let last = acc@.last();
                            assert(acc@.map_values(f) =~= old_acc.map_values(f) + seq![last@]);
                            assert(old_acc.map_values(f) + seq![last@] + pieces(
                                views.subrange(k as int + 1, n as int),
                                sel@,
                                old_depth,
                            ) =~= old_acc.map_values(f) + (seq![last@] + pieces(
                                views.subrange(k as int + 1, n as int),
                                sel@,
                                old_depth,
                            )));
                        }
                    } else {
                        proof {
                            assert(Seq::<Seq<char>>::empty() + pieces(
                                views.subrange(k as int + 1, n as int),
                                sel@,
                                old_depth,
                            ) =~= pieces(views.subrange(k as int + 1, n as int), sel@, old_depth));
                        }
                    }
                }
            },
            Token::Open(name, attrs, sc) => {
                if *sc {
                } else if depth > 0 {
                    if chars_eq(name, &sel.tag) {
                        depth = depth + 1;
                    }
                } else {
                    if open_matches(name, attrs, sel) {
                        depth = 1;
                    }
                }
            },
            Token::Close(name) => {
                if depth > 0 && chars_eq(name, &sel.tag) {
                    depth = depth - 1;
                }
            },
        }
        k = k + 1;
    }
    proof {
        assert(views.subrange(n as int, n as int) =~= Seq::<TokenView>::empty());
        assert(acc@.map_values(|p: Vec<char>| p@) + Seq::<Seq<char>>::empty() =~= acc@.map_values(
            |p: Vec<char>| p@,
        ));
    }
    acc
}

/// The pieces joined with single newline separators, in order.
pub open spec fn join_lines(ps: Seq<Seq<char>>) -> Seq<char>
    decreases ps.len(),
{
    if ps.len() == 0 {
        Seq::empty()
    } else if ps.len() == 1 {
        ps[0]
    } else {
        join_lines(ps.drop_last()) + seq!['\n'] + ps.last()
    }
}

/// Joins text pieces with newline separators.
pub fn join(ps: &Vec<Vec<char>>) -> (r: Vec<char>)
    ensures
        r@ == join_lines(ps@.map_values(|p: Vec<char>| p@)),
{
    let ghost views = ps@.map_values(|p: Vec<char>| p@);
    let n = ps.len();
    let mut r: Vec<char> = Vec::new();
    let mut i: usize = 0;
    proof {
        assert(views.subrange(0, 0) =~= Seq::<Seq<char>>::empty());
    }
    while i < n
        invariant
            i <= n,
            n == ps@.len(),
            views == ps@.map_values(|p: Vec<char>| p@),
            r@ == join_lines(views.subrange(0, i as int)),
        decreases n - i,
    {
        if i > 0 {
            r.push('\n');
        }
        let piece = &ps[i];
        let m = piece.len();
        let ghost before = r@;
        let mut j: usize = 0;
        while j < m
            invariant
                j <= m,
                m == piece@.len(),
                r@ == before + piece@.subrange(0, j as int),
            decreases m - j,
        {
            r.push(piece[j]);
            proof {
                assert(before + piece@.subrange(0, j as int + 1) =~= (before + piece@.subrange(
                    0,
                    j as int,
                )).push(piece@[j as int]));
            }
            j = j + 1;
        }
        proof {
            let upto = views.subrange(0, i as int + 1);
            assert(piece@.subrange(0, m as int) =~= piece@);
            assert(upto.drop_last() =~= views.subrange(0, i as int));
            assert(upto.last() == views[i as int]);
            assert(views[i as int] == ps@[i as int]@);
            if i == 0 {
                assert(r@ =~= join_lines(upto));
            } else {
                assert(r@ =~= join_lines(views.subrange(0, i as int)) + seq!['\n'] + views[i as int]);
            }
        }
        i = i + 1;
    }
    proof {
        assert(views.subrange(0, n as int) =~= views);
    }
    r
}

/// The first selector of the chain: the main story container.
pub open spec fn story_selector() -> SelectorView {
    SelectorView { tag: "div"@, class: Option::Some("storywrapper"@) }
}

/// The second selector of the chain: generic content paragraphs.
pub open spec fn paragraph_selector() -> SelectorView {
    SelectorView { tag: "p"@, class: Option::None }
}

/// The canonical text of raw markup `s`: the trimmed text nodes inside the
/// first selector of the chain that matches any element, joined with
/// newlines; when no selector matches, the raw markup itself.
pub open spec fn spec_canonicalize(s: Seq<char>) -> Seq<char> {
    let toks = spec_tokenize(s);
    if stream_has_match(toks, story_selector()) {
        join_lines(pieces(toks, story_selector(), 0))
    } else if stream_has_match(toks, paragraph_selector()) {
        join_lines(pieces(toks, paragraph_selector(), 0))
    } else {
        s
    }
}

/// Turns raw fetched markup into its normalized, comparable text
/// representation.  Pure and total: every input, however malformed, yields a
/// result, and the same input always yields the same output.
pub fn canonicalize(html: &str) -> (r: String)
    ensures
        r@ == spec_canonicalize(html@),
{
    let cs = chars_of(html);
    let toks = tokenize(&cs);
    let story = Selector::new("div", Option::Some("storywrapper"));
    proof {
        assert(story@ == story_selector());
    }
    if any_match(&toks, &story) {
        let ps = extract(&toks, &story);
        let joined = join(&ps);
        return string_of(&joined);
    }
    let paragraph = Selector::new("p", Option::None);
    proof {
        assert(paragraph@ == paragraph_selector());
    }
    if any_match(&toks, &paragraph) {
        let ps = extract(&toks, &paragraph);
        let joined = join(&ps);
        return string_of(&joined);
    }
    html.to_owned()
}

/// Whether two raw markups canonicalize to the same text.
pub fn compare_article_fulltext(a: &str, b: &str) -> (r: bool)
    ensures
        r == (spec_canonicalize(a@) == spec_canonicalize(b@)),
{
    let ca = canonicalize(a);
    let cb = canonicalize(b);
    str_eq(ca.as_str(), cb.as_str())
}

} // verus!
