//! Paths in an addon tree.
//!
//! A path is the list of its components, separated by `/` in its text. A leading
//! empty component stands for the root, so `/game/citadel` is `["", "game",
//! "citadel"]`. `.` counts only at the very start, and `..` is kept as it is: it
//! is never resolved, and nothing in a tree is called that.
use crate::text;
use crate::table::Key;
use crate::text::{contains_text, ends_with, joined, opt_text, pieces, text_before, texts};
use vstd::prelude::*;
use vstd::string::*;

verus! {

/// The components of a path.
pub type PathView = Seq<Seq<char>>;

/// Whether piece `i` of a path's text is a component.
pub open spec fn is_component(ps: Seq<Seq<char>>, i: int) -> bool {
    if i == 0 {
        ps.len() > 1 || ps[0].len() > 0
    } else {
        ps[i].len() > 0 && ps[i] != "."@
    }
}

/// The components among the first `n` pieces of a path's text.
pub open spec fn components(ps: Seq<Seq<char>>, n: int) -> PathView
    decreases n,
{
    if n <= 0 {
        Seq::empty()
    } else if is_component(ps, n - 1) {
        components(ps, n - 1).push(ps[n - 1])
    } else {
        components(ps, n - 1)
    }
}

/// The path that a text writes.
pub open spec fn path_of(t: Seq<char>) -> PathView {
    let ps = pieces(t, '/');
    components(ps, ps.len() as int)
}

/// The text of a path.
pub open spec fn path_text(p: PathView) -> Seq<char> {
    if p.len() == 1 && p[0].len() == 0 {
        "/"@
    } else {
        joined(p, "/"@)
    }
}

/// `p` followed by the path that `t` writes; a rooted `t` stands alone.
pub open spec fn path_join(p: PathView, t: Seq<char>) -> PathView {
    let q = path_of(t);
    if p.len() == 0 || (q.len() > 0 && q[0].len() == 0) {
        q
    } else if q.len() > 0 && q[0] == "."@ {
        p + q.drop_first()
    } else {
        p + q
    }
}

/// The last component, unless it is the root, `.` or `..`.
pub open spec fn path_name(p: PathView) -> Option<Seq<char>> {
    if p.len() > 0 && p.last().len() > 0 && p.last() != "."@ && p.last() != ".."@ {
        Some(p.last())
    } else {
        None
    }
}

/// The path without its last component; the root and the empty path have none.
pub open spec fn path_parent(p: PathView) -> Option<PathView> {
    if p.len() == 0 || (p.len() == 1 && p[0].len() == 0) {
        None
    } else {
        Some(p.drop_last())
    }
}

/// A name that is one component: not empty, without `/`, and neither `.` nor `..`.
pub open spec fn plain_name(t: Seq<char>) -> bool {
    t.len() > 0 && !t.contains('/') && t != "."@ && t != ".."@
}

/// Whether a file name has the extension `vpk`.
pub open spec fn vpk_name(name: Seq<char>) -> bool {
    ends_with(name, ".vpk"@) && name.len() > 4
}

/// `a` comes strictly before `b`, component by component.
pub open spec fn path_before(a: PathView, b: PathView) -> bool
    decreases a.len(),
{
    if b.len() == 0 {
        false
    } else if a.len() == 0 {
        true
    } else if a[0] != b[0] {
        text_before(a[0], b[0])
    } else {
        path_before(a.drop_first(), b.drop_first())
    }
}

/// The file name of a text read as a path, or the text itself.
pub open spec fn base_name(t: Seq<char>) -> Seq<char> {
    match path_name(path_of(t)) {
        Some(name) => name,
        None => t,
    }
}

pub proof fn lemma_path_before_total(a: PathView, b: PathView)
    ensures
        a != b ==> path_before(a, b) || path_before(b, a),
        !(path_before(a, b) && path_before(b, a)),
        a == b ==> !path_before(a, b),
    decreases a.len(),
{
    if a.len() > 0 && b.len() > 0 {
        text::lemma_text_before_total(a[0], b[0]);
        if a[0] == b[0] {
            lemma_path_before_total(a.drop_first(), b.drop_first());
            if a.drop_first() == b.drop_first() {
                assert(a =~= seq![a[0]] + a.drop_first());
                assert(b =~= seq![b[0]] + b.drop_first());
            }
        }
    } else if a.len() == 0 && b.len() == 0 {
        assert(a =~= b);
    }
}

pub proof fn lemma_path_before_transitive(a: PathView, b: PathView, c: PathView)
    requires
        path_before(a, b),
        path_before(b, c),
    ensures
        path_before(a, c),
    decreases a.len(),
{
    if a.len() > 0 {
        if a[0] == b[0] && b[0] == c[0] {
            lemma_path_before_transitive(a.drop_first(), b.drop_first(), c.drop_first());
        } else if a[0] != b[0] && b[0] != c[0] {
            text::lemma_text_before_transitive(a[0], b[0], c[0]);
            text::lemma_text_before_total(a[0], c[0]);
            text::lemma_text_before_total(a[0], b[0]);
        }
    }
}

/// A path comes before everything below it.
pub proof fn lemma_prefix_before(a: PathView, b: PathView)
    requires
        a.is_prefix_of(b),
        a.len() < b.len(),
    ensures
        path_before(a, b),
    decreases a.len(),
{
    if a.len() > 0 {
        assert(a[0] == b.take(a.len() as int)[0]);
        assert(a.drop_first() =~= b.drop_first().take(a.len() - 1));
        lemma_prefix_before(a.drop_first(), b.drop_first());
    }
}

/// A text without `/` is one piece.
pub proof fn lemma_one_piece(t: Seq<char>)
    requires
        !t.contains('/'),
    ensures
        pieces(t, '/') == seq![t],
{
    text::lemma_char_from(t, '/', 0);
    let i = text::char_from(t, '/', 0);
    if i < t.len() {
        assert(t.contains(t[i]));
    }
    assert(t.skip(0) =~= t);
}

/// A plain name is a path of one component.
pub proof fn lemma_plain_path(t: Seq<char>)
    requires
        t.len() > 0,
        !t.contains('/'),
    ensures
        path_of(t) == seq![t],
{
    lemma_one_piece(t);
    let ps = seq![t];
    assert(components(ps, 0) =~= Seq::empty());
    assert(components(ps, 1) =~= seq![t]);
}

/// Joining a plain name appends it.
pub proof fn lemma_join_plain(p: PathView, t: Seq<char>)
    requires
        plain_name(t),
    ensures
        path_join(p, t) == p.push(t),
{
    lemma_plain_path(t);
    assert(p + seq![t] =~= p.push(t));
    if p.len() == 0 {
        assert(seq![t] =~= p.push(t));
    }
}

/// Components hold no `/`.
proof fn lemma_pieces_without(t: Seq<char>, c: char, k: int)
    requires
        0 <= k <= t.len(),
    ensures
        forall|i: int|
            0 <= i < text::pieces_from(t, c, k).len() ==> !(#[trigger] text::pieces_from(
                t,
                c,
                k,
            )[i]).contains(c),
        text::pieces_from(t, c, k).len() > 0,
    decreases t.len() + 1 - k,
{
    text::lemma_char_from(t, c, k);
    let i = text::char_from(t, c, k);
    if i >= t.len() {
        let s = t.skip(k);
        if s.contains(c) {
            let a = choose|a: int| 0 <= a < s.len() && s[a] == c;
            assert(t[k + a] == c);
        }
    } else {
        lemma_pieces_without(t, c, i + 1);
        let s = t.subrange(k, i);
        if s.contains(c) {
            let a = choose|a: int| 0 <= a < s.len() && s[a] == c;
            assert(t[k + a] == c);
        }
        let all = text::pieces_from(t, c, k);
        let rest = text::pieces_from(t, c, i + 1);
        assert forall|j: int| 0 <= j < all.len() implies !(#[trigger] all[j]).contains(c) by {
            if j > 0 {
                assert(all[j] == rest[j - 1]);
            }
        }
    }
}

/// A path that is its own file name is a plain name.
pub proof fn lemma_own_name(t: Seq<char>)
    ensures
        path_name(path_of(t)) == Some(t) <==> plain_name(t),
{
    if plain_name(t) {
        lemma_plain_path(t);
    }
    if path_name(path_of(t)) == Some(t) {
        let ps = pieces(t, '/');
        lemma_pieces_without(t, '/', 0);
        lemma_components_from_pieces(ps, ps.len() as int);
        assert(path_of(t).contains(path_of(t).last()));
        assert(ps.contains(t));
    }
}

proof fn lemma_components_from_pieces(ps: Seq<Seq<char>>, n: int)
    requires
        0 <= n <= ps.len(),
    ensures
        forall|x: Seq<char>| components(ps, n).contains(x) ==> ps.contains(x),
    decreases n,
{
    if n > 0 {
        lemma_components_from_pieces(ps, n - 1);
        assert forall|x: Seq<char>| components(ps, n).contains(x) implies ps.contains(x) by {
            let c = components(ps, n);
            let a = choose|a: int| 0 <= a < c.len() && c[a] == x;
            if is_component(ps, n - 1) && a == c.len() - 1 {
                assert(ps[n - 1] == x);
            } else {
                assert(components(ps, n - 1)[a] == x);
            }
        }
    }
}

proof fn lemma_last_piece(a: Seq<char>, b: Seq<char>, k: int)
    requires
        !b.contains('/'),
        0 <= k <= a.len(),
    ensures
        ({
            let ps = text::pieces_from(a + seq!['/'] + b, '/', k);
            ps.len() > 1 && ps.last() == b
        }),
    decreases a.len() - k,
{
    let t = a + seq!['/'] + b;
    text::lemma_char_from(t, '/', k);
    let i = text::char_from(t, '/', k);
    assert(t[a.len() as int] == '/');
    assert(i <= a.len());
    let rest = text::pieces_from(t, '/', i + 1);
    if i < a.len() {
        lemma_last_piece(a, b, i + 1);
    } else {
        text::lemma_char_from(t, '/', i + 1);
        let j = text::char_from(t, '/', i + 1);
        if j < t.len() {
            assert(t[j] == b[j - a.len() - 1]);
            assert(b.contains(b[j - a.len() - 1]));
        }
        assert(t.skip(i + 1) =~= b);
    }
    assert(text::pieces_from(t, '/', k).last() == rest.last());
}

/// The file name of a path is what stands behind its last separator.
pub proof fn law_the_last_part_is_the_name(a: Seq<char>, name: Seq<char>)
    requires
        plain_name(name),
    ensures
        path_name(path_of(a + "/"@ + name)) == Some(name),
        base_name(a + "/"@ + name) == name,
        base_name(name) == name,
{
    reveal_strlit("/");
    assert("/"@ =~= seq!['/']);
    lemma_last_piece(a, name, 0);
    let ps = pieces(a + "/"@ + name, '/');
    let n = ps.len() as int;
    assert(is_component(ps, n - 1));
    lemma_own_name(name);
}

/// A path, held as its components.
#[derive(Debug, Clone, PartialEq, Eq)]
pub struct TreePath {
    parts: Vec<String>,
}

impl View for TreePath {
    type V = PathView;

    closed spec fn view(&self) -> PathView {
        texts(self.parts@)
    }
}

impl TreePath {
    /// Reads a path from its text.
    pub fn parse(t: &str) -> (r: TreePath)
        ensures
            r@ == path_of(t@),
    {
        let ps = text::split_at_char(t, '/');
        let mut parts: Vec<String> = Vec::new();
        let ghost pv = pieces(t@, '/');
        let mut i: usize = 0;
        while i < ps.len()
            invariant
                i <= ps.len(),
                pv == texts(ps@),
                texts(parts@) == components(pv, i as int),
            decreases ps.len() - i,
        {
            let keep: bool = if i == 0 {
                ps.len() > 1 || ps[i].as_str().unicode_len() > 0
            } else {
                ps[i].as_str().unicode_len() > 0 && !text::same_text(ps[i].as_str(), ".")
            };
            assert(pv[i as int] == ps@[i as int]@);
            assert(keep == is_component(pv, i as int));
            if keep {
                let s = ps[i].clone();
                proof {
                    text::lemma_texts_push(parts@, s);
                }
                parts.push(s);
            }
            i = i + 1;
        }
        TreePath { parts }
    }

    /// The text of this path.
    pub fn to_text(&self) -> (r: String)
        ensures
            r@ == path_text(self@),
    {
        if self.parts.len() == 1 && self.parts[0].as_str().unicode_len() == 0 {
            assert(self@[0] == self.parts@[0]@);
            return "/".to_owned();
        }
        proof {
            if self.parts.len() == 1 {
                assert(self@[0] == self.parts@[0]@);
            }
        }
        text::join_texts(&self.parts, "/")
    }

    pub fn join(&self, t: &str) -> (r: TreePath)
        ensures
            r@ == path_join(self@, t@),
    {
        let q = TreePath::parse(t);
        if q.parts.len() > 0 {
            assert(q@[0] == q.parts@[0]@);
        }
        if self.parts.len() == 0 || (q.parts.len() > 0 && q.parts[0].as_str().unicode_len() == 0) {
            return q;
        }
        let mut i: usize = if q.parts.len() > 0 && text::same_text(q.parts[0].as_str(), ".") {
            1
        } else {
            0
        };
        let mut parts = text::copy_texts(&self.parts);
        let ghost start = i as int;
        assert(texts(parts@) =~= self@ + q@.subrange(start, start));
        while i < q.parts.len()
            invariant
                0 <= start <= i <= q.parts.len(),
                texts(parts@) == self@ + q@.subrange(start, i as int),
            decreases q.parts.len() - i,
        {
            let s = q.parts[i].clone();
            proof {
                text::lemma_texts_push(parts@, s);
                assert(q@[i as int] == q.parts@[i as int]@);
                assert(q@.subrange(start, i + 1) =~= q@.subrange(start, i as int).push(
                    q@[i as int],
                ));
                assert(self@ + q@.subrange(start, i + 1) =~= (self@ + q@.subrange(
                    start,
                    i as int,
                )).push(q@[i as int]));
            }
            parts.push(s);
            i = i + 1;
        }
        proof {
            if start == 1 {
                assert(q@.subrange(1, q@.len() as int) =~= q@.drop_first());
            } else {
                assert(q@.subrange(0, q@.len() as int) =~= q@);
            }
        }
        TreePath { parts }
    }

    pub fn file_name(&self) -> (r: Option<String>)
        ensures
            opt_text(r) == path_name(self@),
    {
        if self.parts.len() == 0 {
            return None;
        }
        let last = &self.parts[self.parts.len() - 1];
        assert(last@ == self@.last());
        if last.as_str().unicode_len() > 0 && !text::same_text(last.as_str(), ".")
            && !text::same_text(last.as_str(), "..") {
            Some(last.clone())
        } else {
            None
        }
    }

    pub fn parent(&self) -> (r: Option<TreePath>)
        ensures
            match r {
                Some(q) => path_parent(self@) == Some(q@),
                None => path_parent(self@) is None,
            },
    {
        if self.parts.len() > 0 {
            assert(self@[0] == self.parts@[0]@);
        }
        if self.parts.len() == 0 || (self.parts.len() == 1 && self.parts[0].as_str().unicode_len()
            == 0) {
            return None;
        }
        Some(self.first(self.parts.len() - 1))
    }

    /// The path of the first `n` components.
    pub fn first(&self, n: usize) -> (r: TreePath)
        requires
            n <= self@.len(),
        ensures
            r@ == self@.take(n as int),
    {
        let mut parts: Vec<String> = Vec::new();
        let mut i: usize = 0;
        while i < n
            invariant
                i <= n <= self.parts.len(),
                texts(parts@) =~= self@.take(i as int),
            decreases n - i,
        {
            let s = self.parts[i].clone();
            proof {
                text::lemma_texts_push(parts@, s);
                assert(self@[i as int] == s@);
            }
            parts.push(s);
            i = i + 1;
        }
        TreePath { parts }
    }

    /// The components from position `n` on, as a path.
    pub fn rest(&self, n: usize) -> (r: TreePath)
        requires
            n <= self@.len(),
        ensures
            r@ == self@.skip(n as int),
    {
        let mut parts: Vec<String> = Vec::new();
        let mut i: usize = n;
        while i < self.parts.len()
            invariant
                n <= i <= self.parts.len(),
                texts(parts@) =~= self@.subrange(n as int, i as int),
            decreases self.parts.len() - i,
        {
            let s = self.parts[i].clone();
            proof {
                text::lemma_texts_push(parts@, s);
                assert(self@[i as int] == s@);
            }
            parts.push(s);
            i = i + 1;
        }
        TreePath { parts }
    }

    /// This path followed by the components of `tail`.
    pub fn followed_by(&self, tail: &TreePath) -> (r: TreePath)
        ensures
            r@ == self@ + tail@,
    {
        let mut parts = text::copy_texts(&self.parts);
        let mut i: usize = 0;
        assert(texts(parts@) =~= self@ + tail@.take(0));
        while i < tail.parts.len()
            invariant
                i <= tail.parts.len(),
                texts(parts@) == self@ + tail@.take(i as int),
            decreases tail.parts.len() - i,
        {
            let s = tail.parts[i].clone();
            proof {
                text::lemma_texts_push(parts@, s);
                assert(tail@[i as int] == s@);
                assert(self@ + tail@.take(i + 1) =~= (self@ + tail@.take(i as int)).push(s@));
            }
            parts.push(s);
            i = i + 1;
        }
        assert(tail@.take(tail@.len() as int) =~= tail@);
        TreePath { parts }
    }

    /// This path with one more component, whatever its text.
    pub fn child(&self, name: &str) -> (r: TreePath)
        ensures
            r@ == self@.push(name@),
    {
        let mut parts = text::copy_texts(&self.parts);
        let s = name.to_owned();
        proof {
            text::lemma_texts_push(parts@, s);
        }
        parts.push(s);
        TreePath { parts }
    }

    pub fn len(&self) -> (r: usize)
        ensures
            r == self@.len(),
    {
        self.parts.len()
    }

    /// Component `i`.
    pub fn part(&self, i: usize) -> (r: &str)
        requires
            i < self@.len(),
        ensures
            r@ == self@[i as int],
    {
        self.parts[i].as_str()
    }

    pub fn starts_with(&self, p: &TreePath) -> (r: bool)
        ensures
            r == p@.is_prefix_of(self@),
    {
        if p.parts.len() > self.parts.len() {
            return false;
        }
        let mut i: usize = 0;
        while i < p.parts.len()
            invariant
                i <= p.parts.len() <= self.parts.len(),
                forall|j: int| 0 <= j < i ==> #[trigger] p@[j] == self@[j],
            decreases p.parts.len() - i,
        {
            assert(p@[i as int] == p.parts@[i as int]@);
            assert(self@[i as int] == self.parts@[i as int]@);
            if p.parts[i] != self.parts[i] {
                assert(self@.take(p@.len() as int)[i as int] == self@[i as int]);
                return false;
            }
            i = i + 1;
        }
        assert(p@ =~= self@.take(p@.len() as int));
        true
    }

    pub fn duplicate(&self) -> (r: TreePath)
        ensures
            r@ == self@,
    {
        TreePath { parts: text::copy_texts(&self.parts) }
    }

    pub fn equals(&self, other: &TreePath) -> (r: bool)
        ensures
            r == (self@ == other@),
    {
        text::same_texts(&self.parts, &other.parts)
    }

    pub fn is_before(&self, other: &TreePath) -> (r: bool)
        ensures
            r == path_before(self@, other@),
    {
        let n: usize = self.parts.len();
        let m: usize = other.parts.len();
        let mut i: usize = 0;
        assert(self@.skip(0) =~= self@);
        assert(other@.skip(0) =~= other@);
        while i < n && i < m
            invariant
                n == self@.len(),
                n == self.parts@.len(),
                m == other@.len(),
                m == other.parts@.len(),
                i <= n,
                i <= m,
                path_before(self@, other@) == path_before(
                    self@.skip(i as int),
                    other@.skip(i as int),
                ),
            decreases n - i,
        {
            assert(self@.skip(i as int)[0] == self.parts@[i as int]@);
            assert(other@.skip(i as int)[0] == other.parts@[i as int]@);
            if self.parts[i] != other.parts[i] {
                return text::is_before(self.parts[i].as_str(), other.parts[i].as_str());
            }
            assert(self@.skip(i as int).drop_first() =~= self@.skip(i + 1));
            assert(other@.skip(i as int).drop_first() =~= other@.skip(i + 1));
            i = i + 1;
        }
        i < m
    }
}

impl Key for TreePath {
    type Value = PathView;

    open spec fn key(&self) -> PathView {
        self@
    }

    open spec fn before(a: PathView, b: PathView) -> bool {
        path_before(a, b)
    }

    proof fn before_total(a: PathView, b: PathView) {
        lemma_path_before_total(a, b);
        lemma_path_before_total(a, a);
    }

    proof fn before_transitive(a: PathView, b: PathView, c: PathView) {
        lemma_path_before_transitive(a, b, c);
    }

    fn precedes(&self, other: &Self) -> (r: bool) {
        self.is_before(other)
    }

    fn same(&self, other: &Self) -> (r: bool) {
        self.equals(other)
    }

    fn copy_key(&self) -> (r: Self) {
        self.duplicate()
    }
}

impl Key for String {
    type Value = Seq<char>;

    open spec fn key(&self) -> Seq<char> {
        self@
    }

    open spec fn before(a: Seq<char>, b: Seq<char>) -> bool {
        text_before(a, b)
    }

    proof fn before_total(a: Seq<char>, b: Seq<char>) {
        text::lemma_text_before_total(a, b);
        text::lemma_text_before_total(a, a);
    }

    proof fn before_transitive(a: Seq<char>, b: Seq<char>, c: Seq<char>) {
        text::lemma_text_before_transitive(a, b, c);
    }

    fn precedes(&self, other: &Self) -> (r: bool) {
        text::is_before(self.as_str(), other.as_str())
    }

    fn same(&self, other: &Self) -> (r: bool) {
        *self == *other
    }

    fn copy_key(&self) -> (r: Self) {
        self.clone()
    }
}

/// Whether a file name has the extension `vpk`.
pub fn is_vpk_name(name: &str) -> (r: bool)
    ensures
        r == vpk_name(name@),
{
    text::ends(name, ".vpk") && name.unicode_len() > 4
}

/// Whether a text is a plain name.
pub fn is_plain_name(t: &str) -> (r: bool)
    ensures
        r == plain_name(t@),
{
    proof {
        reveal_strlit("/");
        text::lemma_find_from(t@, "/"@, 0);
        if t@.contains('/') {
            let a = choose|a: int| 0 <= a < t@.len() && t@[a] == '/';
            assert(t@.subrange(a, a + 1) =~= "/"@);
            assert(text::occurs_at(t@, "/"@, a));
        }
        if contains_text(t@, "/"@) {
            let a = choose|a: int| text::occurs_at(t@, "/"@, a);
            assert(t@.subrange(a, a + 1)[0] == t@[a]);
        }
    }
    t.unicode_len() > 0 && !text::has_text(t, "/") && !text::same_text(t, ".") && !text::same_text(
        t,
        "..",
    )
}

/// The file name of a text read as a path, or the text itself.
pub fn base_name_of(t: &str) -> (r: String)
    ensures
        r@ == base_name(t@),
{
    match TreePath::parse(t).file_name() {
        Some(name) => name,
        None => t.to_owned(),
    }
}

} // verus!
