//! Text fundamentals shared by the fixture codec: whitespace trimming,
//! newline splitting and joining, and character searches, each as a
//! mathematical definition over `Seq<char>` together with a verified
//! executable counterpart on `&str`.

use vstd::prelude::*;
use vstd::string::*;

verus! {

/// The whitespace characters the codec trims at the edges of tokens and
/// blocks: space, tab, carriage return and line feed.
pub open spec fn is_blank(c: char) -> bool {
    c == ' ' || c == '\t' || c == '\r' || c == '\n'
}

/// `s` without its leading run of blank characters.
pub open spec fn trim_start(s: Seq<char>) -> Seq<char>
    decreases s.len(),
{
    if s.len() > 0 && is_blank(s[0]) {
        trim_start(s.drop_first())
    } else {
        s
    }
}

/// `s` without its trailing run of blank characters.
pub open spec fn trim_end(s: Seq<char>) -> Seq<char>
    decreases s.len(),
{
    if s.len() > 0 && is_blank(s[s.len() - 1]) {
        trim_end(s.drop_last())
    } else {
        s
    }
}

/// `s` without leading and trailing blanks.
pub open spec fn trim(s: Seq<char>) -> Seq<char> {
    trim_end(trim_start(s))
}

/// `s` holds no line feed, so it can stand as a single line of a document.
pub open spec fn line_free(s: Seq<char>) -> bool {
    forall|i: int| 0 <= i < s.len() ==> s[i] != '\n'
}

/// The position of the first occurrence of `c` in `s`, if any.
pub open spec fn first_index(s: Seq<char>, c: char) -> Option<int>
    decreases s.len(),
{
    if s.len() == 0 {
        None
    } else if s[0] == c {
        Some(0)
    } else {
        match first_index(s.drop_first(), c) {
            None => None,
            Some(j) => Some(j + 1),
        }
    }
}

/// Where `first_index` answers, it answers with a position of `c` in `s`,
/// and with the first one: everything before it differs from `c`.
pub proof fn lemma_first_index(s: Seq<char>, c: char)
    ensures
        match first_index(s, c) {
            Some(i) => 0 <= i < s.len() && s[i] == c && (forall|j: int| 0 <= j < i ==> s[j] != c),
            None => forall|j: int| 0 <= j < s.len() ==> s[j] != c,
        },
    decreases s.len(),
{
    if s.len() > 0 && s[0] != c {
        let t = s.drop_first();
        lemma_first_index(t, c);
        assert(forall|j: int| 1 <= j < s.len() ==> s[j] == t[j - 1]);
    }
}

/// `s` cut at every line feed: always at least one line, and the separators
/// themselves belong to no line.
pub open spec fn split_lines(s: Seq<char>) -> Seq<Seq<char>>
    decreases s.len(),
    via split_lines_decreases
{
    match first_index(s, '\n') {
        None => seq![s],
        Some(i) => seq![s.take(i)] + split_lines(s.skip(i + 1)),
    }
}

#[via_fn]
proof fn split_lines_decreases(s: Seq<char>) {
    lemma_first_index(s, '\n');
}

/// The lines of `ls` joined with a single line feed between neighbours and
/// nothing at the ends: the inverse of `split_lines`.
pub open spec fn join_lines(ls: Seq<Seq<char>>) -> Seq<char>
    decreases ls.len(),
{
    if ls.len() == 0 {
        Seq::empty()
    } else if ls.len() == 1 {
        ls[0]
    } else {
        ls[0] + seq!['\n'] + join_lines(ls.drop_first())
    }
}

/// The lines of `ls` each terminated by a line feed: how a document is laid
/// down line by line.
pub open spec fn unlines(ls: Seq<Seq<char>>) -> Seq<char>
    decreases ls.len(),
{
    if ls.len() == 0 {
        Seq::empty()
    } else {
        ls[0] + seq!['\n'] + unlines(ls.drop_first())
    }
}

/// In `a + b` where `c` never occurs in `a` and `b` opens with `c`, the
/// first occurrence of `c` sits exactly at the seam.
pub proof fn lemma_first_index_concat(a: Seq<char>, b: Seq<char>, c: char)
    requires
        forall|i: int| 0 <= i < a.len() ==> a[i] != c,
        b.len() > 0,
        b[0] == c,
    ensures
        first_index(a + b, c) == Some(a.len() as int),
    decreases a.len(),
{
    if a.len() == 0 {
        assert(a + b =~= b);
    } else {
        let t = a.drop_first();
        lemma_first_index_concat(t, b, c);
        assert((a + b).drop_first() =~= t + b);
    }
}

/// Splitting undoes laying lines down: the split of `unlines(ls)` is `ls`
/// itself followed by one empty line left behind by the final line feed.
pub proof fn lemma_split_unlines(ls: Seq<Seq<char>>)
    requires
        forall|i: int| 0 <= i < ls.len() ==> line_free(#[trigger] ls[i]),
    ensures
        split_lines(unlines(ls)) == ls + seq![Seq::<char>::empty()],
    decreases ls.len(),
{
    if ls.len() == 0 {
        assert(first_index(Seq::<char>::empty(), '\n') is None);
        assert(split_lines(unlines(ls)) =~= ls + seq![Seq::<char>::empty()]);
    } else {
        let head = ls[0];
        let rest = ls.drop_first();
        let tail = seq!['\n'] + unlines(rest);
        lemma_first_index_concat(head, tail, '\n');
        assert(unlines(ls) =~= head + tail);
        assert(first_index(unlines(ls), '\n') == Some(head.len() as int));
        assert(unlines(ls).take(head.len() as int) =~= head);
        assert(unlines(ls).skip(head.len() as int + 1) =~= unlines(rest));
        lemma_split_unlines(rest);
        assert(split_lines(unlines(ls)) =~= ls + seq![Seq::<char>::empty()]);
    }
}

/// Joining undoes splitting: gluing the lines of `s` back together with
/// line feeds restores `s` exactly.
pub proof fn lemma_join_split(s: Seq<char>)
    ensures
        join_lines(split_lines(s)) == s,
    decreases s.len(),
{
    lemma_first_index(s, '\n');
    match first_index(s, '\n') {
        None => {},
        Some(i) => {
            lemma_join_split(s.skip(i + 1));
            let ls = split_lines(s);
            assert(split_lines(s.skip(i + 1)).len() > 0);
            assert(ls.len() >= 2);
            assert(ls.drop_first() =~= split_lines(s.skip(i + 1)));
            assert(ls[0] == s.take(i));
            assert(join_lines(ls) == s.take(i) + seq!['\n'] + s.skip(i + 1));
            assert(join_lines(ls) =~= s);
        },
    }
}

/// Splitting undoes joining, as long as the lines are genuine lines: free of
/// line feeds, and at least one of them.
pub proof fn lemma_split_join(ls: Seq<Seq<char>>)
    requires
        ls.len() > 0,
        forall|i: int| 0 <= i < ls.len() ==> line_free(#[trigger] ls[i]),
    ensures
        split_lines(join_lines(ls)) == ls,
    decreases ls.len(),
{
    if ls.len() == 1 {
        lemma_first_index(ls[0], '\n');
        assert(split_lines(join_lines(ls)) =~= ls);
    } else {
        let head = ls[0];
        let rest = ls.drop_first();
        let tail = seq!['\n'] + join_lines(rest);
        lemma_first_index_concat(head, tail, '\n');
        assert(join_lines(ls) =~= head + tail);
        assert(first_index(join_lines(ls), '\n') == Some(head.len() as int));
        assert(join_lines(ls).take(head.len() as int) =~= head);
        assert(join_lines(ls).skip(head.len() as int + 1) =~= join_lines(rest));
        lemma_split_join(rest);
        assert(split_lines(join_lines(ls)) =~= ls);
    }
}

/// Every line that splitting produces is itself free of line feeds.
pub proof fn lemma_split_lines_line_free(s: Seq<char>)
    ensures
        forall|i: int| 0 <= i < split_lines(s).len() ==> line_free(#[trigger] split_lines(s)[i]),
    decreases s.len(),
{
    lemma_first_index(s, '\n');
    match first_index(s, '\n') {
        None => {
            assert(line_free(s));
        },
        Some(i) => {
            lemma_split_lines_line_free(s.skip(i + 1));
            assert(line_free(s.take(i)));
            let ls = split_lines(s);
            let rest = split_lines(s.skip(i + 1));
            assert(forall|k: int|
                1 <= k < ls.len() ==> ls[k] == rest[k - 1] && line_free(#[trigger] ls[k]));
        },
    }
}

/// `unlines` distributes over concatenation of line sequences.
pub proof fn lemma_unlines_add(l1: Seq<Seq<char>>, l2: Seq<Seq<char>>)
    ensures
        unlines(l1 + l2) == unlines(l1) + unlines(l2),
    decreases l1.len(),
{
    if l1.len() == 0 {
        assert(l1 + l2 =~= l2);
        assert(unlines(l1 + l2) =~= unlines(l1) + unlines(l2));
    } else {
        lemma_unlines_add(l1.drop_first(), l2);
        assert((l1 + l2).drop_first() =~= l1.drop_first() + l2);
        assert(unlines(l1 + l2) =~= unlines(l1) + unlines(l2));
    }
}

/// Appending one more line to a non-empty sequence extends the join by a
/// line feed and that line.
pub proof fn lemma_join_push(ls: Seq<Seq<char>>, x: Seq<char>)
    requires
        ls.len() > 0,
    ensures
        join_lines(ls.push(x)) == join_lines(ls) + seq!['\n'] + x,
    decreases ls.len(),
{
    if ls.len() == 1 {
        assert(ls.push(x).drop_first() =~= seq![x]);
        assert(join_lines(seq![x]) == x);
        assert(join_lines(ls.push(x)) == ls[0] + seq!['\n'] + x);
        assert(join_lines(ls.push(x)) =~= join_lines(ls) + seq!['\n'] + x);
    } else {
        lemma_join_push(ls.drop_first(), x);
        assert(ls.push(x).drop_first() =~= ls.drop_first().push(x));
        assert(join_lines(ls.push(x)) == ls[0] + seq!['\n'] + join_lines(ls.drop_first().push(x)));
        assert(join_lines(ls) == ls[0] + seq!['\n'] + join_lines(ls.drop_first()));
        assert(join_lines(ls.push(x)) =~= join_lines(ls) + seq!['\n'] + x);
    }
}

/// A single line laid down is that line and its line feed.
pub proof fn lemma_unlines_one(x: Seq<char>)
    ensures
        unlines(seq![x]) == x + seq!['\n'],
{
    assert(seq![x].drop_first() =~= Seq::<Seq<char>>::empty());
    assert(unlines(Seq::<Seq<char>>::empty()) == Seq::<char>::empty());
    assert(unlines(seq![x]) =~= x + seq!['\n']);
}

/// Laying lines down is joining them and closing with one more line feed.
pub proof fn lemma_unlines_join(ls: Seq<Seq<char>>)
    requires
        ls.len() > 0,
    ensures
        unlines(ls) == join_lines(ls) + seq!['\n'],
    decreases ls.len(),
{
    if ls.len() == 1 {
        lemma_unlines_one(ls[0]);
        assert(seq![ls[0]] =~= ls);
        assert(unlines(ls) =~= join_lines(ls) + seq!['\n']);
    } else {
        lemma_unlines_join(ls.drop_first());
        assert(unlines(ls) =~= join_lines(ls) + seq!['\n']);
    }
}

/// Leading blanks can be dropped wholesale before trimming from the front.
pub proof fn lemma_trim_start_skip_blanks(s: Seq<char>, i: int)
    requires
        0 <= i <= s.len(),
        forall|k: int| 0 <= k < i ==> is_blank(s[k]),
    ensures
        trim_start(s) == trim_start(s.skip(i)),
    decreases i,
{
    if i == 0 {
        assert(s.skip(0) =~= s);
    } else {
        assert(is_blank(s[0]));
        lemma_trim_start_skip_blanks(s.drop_first(), i - 1);
        assert(s.drop_first().skip(i - 1) =~= s.skip(i));
    }
}

/// Trailing blanks can be dropped wholesale before trimming from the back.
pub proof fn lemma_trim_end_take_blanks(s: Seq<char>, j: int)
    requires
        0 <= j <= s.len(),
        forall|k: int| j <= k < s.len() ==> is_blank(s[k]),
    ensures
        trim_end(s) == trim_end(s.take(j)),
    decreases s.len() - j,
{
    if j == s.len() {
        assert(s.take(j) =~= s);
    } else {
        assert(is_blank(s[s.len() - 1]));
        lemma_trim_end_take_blanks(s.drop_last(), j);
        assert(s.drop_last().take(j) =~= s.take(j));
    }
}

/// Trimming from the back never touches a non-blank opening character.
pub proof fn lemma_trim_end_keeps_first(s: Seq<char>)
    requires
        s.len() > 0,
        !is_blank(s[0]),
    ensures
        trim_end(s).len() > 0,
        trim_end(s)[0] == s[0],
    decreases s.len(),
{
    if is_blank(s[s.len() - 1]) {
        lemma_trim_end_keeps_first(s.drop_last());
    }
}

/// A sequence that opens and closes with non-blank characters is already
/// trimmed.
pub proof fn lemma_trim_noop(s: Seq<char>)
    requires
        s.len() == 0 || (!is_blank(s[0]) && !is_blank(s[s.len() - 1])),
    ensures
        trim(s) == s,
{
}

/// Trimming keeps the non-blank character a sequence opens with.
pub proof fn lemma_trim_keeps_first(s: Seq<char>)
    requires
        s.len() > 0,
        !is_blank(s[0]),
    ensures
        trim(s).len() > 0,
        trim(s)[0] == s[0],
{
    lemma_trim_end_keeps_first(s);
}

/// Whether `c` is one of the characters the codec counts as blank.
pub fn is_blank_char(c: char) -> (r: bool)
    ensures
        r == is_blank(c),
{
    c == ' ' || c == '\t' || c == '\r' || c == '\n'
}

/// Whether two string slices hold the same characters.
pub fn str_eq(a: &str, b: &str) -> (r: bool)
    ensures
        r == (a@ == b@),
{
    let la = a.unicode_len();
    let lb = b.unicode_len();
    if la != lb {
        return false;
    }
    let mut i: usize = 0;
    while i < la
        invariant
            la == a@.len(),
            la == b@.len(),
            0 <= i <= la,
            forall|j: int| 0 <= j < i ==> a@[j] == b@[j],
        decreases la - i,
    {
        if a.get_char(i) != b.get_char(i) {
            return false;
        }
        i = i + 1;
    }
    proof {
        assert(a@ =~= b@);
    }
    true
}

/// Whether `s` opens with the characters of `p`.
pub fn has_prefix(s: &str, p: &str) -> (r: bool)
    ensures
        r == (p@.len() <= s@.len() && s@.take(p@.len() as int) == p@),
{
    let ls = s.unicode_len();
    let lp = p.unicode_len();
    if lp > ls {
        return false;
    }
    let mut i: usize = 0;
    while i < lp
        invariant
            ls == s@.len(),
            lp == p@.len(),
            lp <= ls,
            0 <= i <= lp,
            forall|j: int| 0 <= j < i ==> s@[j] == p@[j],
        decreases lp - i,
    {
        if s.get_char(i) != p.get_char(i) {
            proof {
                assert(s@.take(lp as int)[i as int] != p@[i as int]);
            }
            return false;
        }
        i = i + 1;
    }
    proof {
        assert(s@.take(lp as int) =~= p@);
    }
    true
}

/// Whether `s` closes with the characters of `p`.
pub fn has_suffix(s: &str, p: &str) -> (r: bool)
    ensures
        r == (p@.len() <= s@.len() && s@.skip(s@.len() - p@.len()) == p@),
{
    let ls = s.unicode_len();
    let lp = p.unicode_len();
    if lp > ls {
        return false;
    }
    let base = ls - lp;
    let mut i: usize = 0;
    while i < lp
        invariant
            ls == s@.len(),
            lp == p@.len(),
            lp <= ls,
            base == ls - lp,
            0 <= i <= lp,
            forall|j: int| 0 <= j < i ==> s@[base + j] == p@[j],
        decreases lp - i,
    {
        if s.get_char(base + i) != p.get_char(i) {
            proof {
                assert(s@.skip(base as int)[i as int] != p@[i as int]);
            }
            return false;
        }
        i = i + 1;
    }
    proof {
        assert(s@.skip(base as int) =~= p@);
    }
    true
}

/// The slice of `s` with its leading and trailing blanks removed.
pub fn trim_str(s: &str) -> (r: &str)
    ensures
        r@ == trim(s@),
{
    let len = s.unicode_len();
    let mut i: usize = 0;
    while i < len && is_blank_char(s.get_char(i))
        invariant
            len == s@.len(),
            0 <= i <= len,
            forall|k: int| 0 <= k < i ==> is_blank(s@[k]),
        decreases len - i,
    {
        i = i + 1;
    }
    let mut j: usize = len;
    while j > i && is_blank_char(s.get_char(j - 1))
        invariant
            len == s@.len(),
            0 <= i <= j <= len,
            forall|k: int| j <= k < len ==> is_blank(s@[k]),
        decreases j,
    {
        j = j - 1;
    }
    let r = s.substring_char(i, j);
    proof {
        lemma_trim_start_skip_blanks(s@, i as int);
        let t = s@.skip(i as int);
        if j == i {
            lemma_trim_start_skip_blanks(t, t.len() as int);
            assert(t.skip(t.len() as int) =~= Seq::<char>::empty());
            assert(trim(s@) =~= s@.subrange(i as int, j as int));
        } else {
            assert(!is_blank(t[0]));
            assert(trim_start(t) == t);
            assert(forall|k: int| j - i <= k < t.len() ==> is_blank(t[k]));
            lemma_trim_end_take_blanks(t, j - i);
            let u = t.take(j - i);
            assert(!is_blank(u[u.len() - 1]));
            assert(trim_end(u) == u);
            assert(trim(s@) == u);
            assert(u =~= s@.subrange(i as int, j as int));
        }
    }
    r
}

/// The lines of `s`, materialised: one owned string per element of
/// `split_lines(s@)`, in order.
pub fn split_str_lines(s: &str) -> (r: Vec<String>)
    ensures
        r.deep_view() == split_lines(s@),
        forall|i: int| 0 <= i < r.deep_view().len() ==> line_free(#[trigger] r.deep_view()[i]),
{
    let len = s.unicode_len();
    let mut out: Vec<String> = Vec::new();
    let mut start: usize = 0;
    let mut i: usize = 0;
    proof {
        assert(s@.skip(0) =~= s@);
        assert(out.deep_view() =~= Seq::<Seq<char>>::empty());
        assert(out.deep_view() + split_lines(s@) =~= split_lines(s@));
    }
    while i < len
        invariant
            len == s@.len(),
            0 <= start <= i <= len,
            split_lines(s@) == out.deep_view() + split_lines(s@.skip(start as int)),
            forall|k: int| start <= k < i ==> s@[k] != '\n',
        decreases len - i,
    {
        if s.get_char(i) == '\n' {
            let line = String::from_str(s.substring_char(start, i));
            proof {
                let pre = s@.subrange(start as int, i as int);
                lemma_first_index_concat(pre, s@.skip(i as int), '\n');
                assert(pre + s@.skip(i as int) =~= s@.skip(start as int));
                assert(first_index(s@.skip(start as int), '\n') == Some(i - start));
                assert(s@.skip(start as int).take(i - start) =~= pre);
                assert(s@.skip(start as int).skip(i - start + 1) =~= s@.skip(i + 1));
                assert(split_lines(s@.skip(start as int)) == seq![pre] + split_lines(
                    s@.skip(i + 1),
                ));
                let dv = out.deep_view();
                assert(dv.push(line@) + split_lines(s@.skip(i + 1)) =~= dv + split_lines(
                    s@.skip(start as int),
                ));
            }
            let ghost old_out = out;
            out.push(line);
            proof {
                assert(out.deep_view() =~= old_out.deep_view().push(line@));
            }
            start = i + 1;
        }
        i = i + 1;
    }
    let line = String::from_str(s.substring_char(start, len));
    proof {
        let tail = s@.skip(start as int);
        lemma_first_index(tail, '\n');
        assert(forall|k: int| 0 <= k < tail.len() ==> tail[k] == s@[start + k]);
        assert(first_index(tail, '\n') is None);
        assert(split_lines(tail) == seq![tail]);
        assert(line@ =~= tail);
        let dv = out.deep_view();
        assert(dv.push(line@) =~= dv + seq![tail]);
    }
    let ghost old_out = out;
    out.push(line);
    proof {
        assert(out.deep_view() =~= old_out.deep_view().push(line@));
        lemma_split_lines_line_free(s@);
    }
    out
}

/// The lines of `lines` between positions `from` and `to`, glued back
/// together with line feeds: the raw text of a fenced region.
pub fn join_region(lines: &Vec<String>, from: usize, to: usize) -> (r: String)
    requires
        from <= to <= lines@.len(),
    ensures
        r@ == join_lines(lines.deep_view().subrange(from as int, to as int)),
{
    let mut out = String::new();
    let mut i: usize = from;
    proof {
        assert(lines.deep_view().subrange(from as int, from as int) =~= Seq::<Seq<char>>::empty());
    }
    while i < to
        invariant
            from <= i <= to <= lines@.len(),
            out@ == join_lines(lines.deep_view().subrange(from as int, i as int)),
        decreases to - i,
    {
        proof {
            reveal_strlit("\n");
        }
        let ghost dv = lines.deep_view();
        let ghost pre = dv.subrange(from as int, i as int);
        if i > from {
            out.append("\n");
            proof {
                lemma_join_push(pre, dv[i as int]);
                assert(dv.subrange(from as int, i + 1) =~= pre.push(dv[i as int]));
                assert("\n"@ =~= seq!['\n']);
            }
        } else {
            proof {
                assert(dv.subrange(from as int, from + 1) =~= seq![dv[from as int]]);
            }
        }
        out.append(lines[i].as_str());
        i = i + 1;
    }
    out
}

/// The position of the first occurrence of `c` in `s`, if there is one.
pub fn find_char(s: &str, c: char) -> (r: Option<usize>)
    ensures
        match r {
            Some(i) => i < s@.len() && first_index(s@, c) == Some(i as int),
            None => first_index(s@, c) is None,
        },
{
    let len = s.unicode_len();
    let mut i: usize = 0;
    while i < len
        invariant
            len == s@.len(),
            0 <= i <= len,
            forall|k: int| 0 <= k < i ==> s@[k] != c,
        decreases len - i,
    {
        if s.get_char(i) == c {
            proof {
                lemma_first_index(s@, c);
            }
            return Some(i);
        }
        i = i + 1;
    }
    proof {
        lemma_first_index(s@, c);
    }
    None
}

} // verus!
