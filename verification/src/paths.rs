//! Slash-separated path strings: cutting them into segments, bringing them
//! into normal form, and joining a directory with a name.

use vstd::prelude::*;
use vstd::string::StrSliceExecFns;
use vstd::string::StringExecFns;

verus! {

/// The characters of `s`, in order.
pub fn to_chars(s: &str) -> (v: Vec<char>)
    ensures
        v@ == s@,
{
    broadcast use vstd::string::group_string_axioms;

    let mut v: Vec<char> = Vec::new();
    for c in it: s.chars()
        invariant
            it.seq() == s@,
            v@ == s@.take(it.index() as int),
    {
        v.push(c);
    }
    v
}

/// The pieces of `s` between its slashes, in order: one more than it has slashes.
pub open spec fn segments(s: Seq<char>) -> Seq<Seq<char>>
    decreases s.len(),
{
    if s.len() == 0 {
        seq![Seq::empty()]
    } else {
        let init = segments(s.drop_last());
        if s.last() == '/' {
            init.push(Seq::empty())
        } else {
            init.drop_last().push(init.last().push(s.last()))
        }
    }
}

/// The segment `.`, which names the directory it stands in.
pub open spec fn is_dot(part: Seq<char>) -> bool {
    part.len() == 1 && part[0] == '.'
}

/// The segment `..`, which names the parent directory.
pub open spec fn is_dot_dot(part: Seq<char>) -> bool {
    part.len() == 2 && part[0] == '.' && part[1] == '.'
}

/// A segment that names a file or directory: not empty, not `.` or `..`, and without a slash.
pub open spec fn is_plain(part: Seq<char>) -> bool {
    &&& part.len() > 0
    &&& !is_dot(part)
    &&& !is_dot_dot(part)
    &&& forall|i: int| 0 <= i < part.len() ==> part[i] != '/'
}

/// The segments kept so far, after `part` has been read: an empty segment
/// and `.` change nothing, `..` drops the last kept segment where there is
/// one, and any other segment is kept.
pub open spec fn keep(kept: Seq<Seq<char>>, part: Seq<char>) -> Seq<Seq<char>> {
    if part.len() == 0 || is_dot(part) {
        kept
    } else if is_dot_dot(part) {
        if kept.len() > 0 {
            kept.drop_last()
        } else {
            kept
        }
    } else {
        kept.push(part)
    }
}

/// The segments that are left of `parts` once they have been read from left to right.
pub open spec fn retained(parts: Seq<Seq<char>>) -> Seq<Seq<char>>
    decreases parts.len(),
{
    if parts.len() == 0 {
        Seq::empty()
    } else {
        keep(retained(parts.drop_last()), parts.last())
    }
}

/// The path that leads from the root through `kept`: a slash before each segment.
pub open spec fn rooted(kept: Seq<Seq<char>>) -> Seq<char>
    decreases kept.len(),
{
    if kept.len() == 0 {
        Seq::empty()
    } else {
        rooted(kept.drop_last()) + seq!['/'] + kept.last()
    }
}

/// The normal form of the path `s`.
pub open spec fn normalized(s: Seq<char>) -> Seq<char> {
    rooted(retained(segments(s)))
}

/// A path in normal form: empty, or a slash before each of its plain segments.
pub open spec fn is_normal(s: Seq<char>) -> bool {
    let parts = segments(s);
    &&& parts[0].len() == 0
    &&& forall|i: int| 1 <= i < parts.len() ==> is_plain(#[trigger] parts[i])
}

/// The segments that the ranges of `ranges` cut out of `s`.
pub open spec fn pieces(s: Seq<char>, ranges: Seq<(usize, usize)>) -> Seq<Seq<char>> {
    Seq::new(ranges.len(), |k: int| s.subrange(ranges[k].0 as int, ranges[k].1 as int))
}

/// Every range of `ranges` lies within the first `n` characters.
pub open spec fn within(ranges: Seq<(usize, usize)>, n: int) -> bool {
    forall|k: int| 0 <= k < ranges.len() ==> (#[trigger] ranges[k]).0 <= ranges[k].1 <= n
}

/// Every path has at least one segment.
pub proof fn lemma_segments_nonempty(s: Seq<char>)
    ensures
        segments(s).len() >= 1,
    decreases s.len(),
{
    if s.len() > 0 {
        lemma_segments_nonempty(s.drop_last());
    }
}

/// How the segments of a path grow when one character is appended.
proof fn lemma_segments_push(s: Seq<char>, c: char)
    ensures
        segments(s).len() >= 1,
        c == '/' ==> segments(s.push(c)) == segments(s).push(Seq::empty()),
        c != '/' ==> segments(s.push(c)) == segments(s).drop_last().push(segments(s).last().push(c)),
{
    lemma_segments_nonempty(s);
    assert(s.push(c).drop_last() =~= s);
}

/// No segment of a path holds a slash.
pub proof fn lemma_segments_hold_no_slash(s: Seq<char>)
    ensures
        forall|i: int, j: int|
            0 <= i < segments(s).len() && 0 <= j < segments(s)[i].len() ==> #[trigger] segments(
                s,
            )[i][j] != '/',
    decreases s.len(),
{
    if s.len() > 0 {
        lemma_segments_hold_no_slash(s.drop_last());
        lemma_segments_nonempty(s.drop_last());
    }
}

/// Appending characters other than the slash makes the last segment longer.
proof fn lemma_segments_append(s: Seq<char>, tail: Seq<char>)
    requires
        forall|j: int| 0 <= j < tail.len() ==> tail[j] != '/',
    ensures
        segments(s).len() >= 1,
        segments(s + tail) == segments(s).drop_last().push(segments(s).last() + tail),
    decreases tail.len(),
{
    lemma_segments_nonempty(s);
    if tail.len() == 0 {
        assert(s + tail =~= s);
        assert(segments(s).last() + tail =~= segments(s).last());
        assert(segments(s).drop_last().push(segments(s).last()) =~= segments(s));
    } else {
        let front = tail.drop_last();
        lemma_segments_append(s, front);
        lemma_segments_push(s + front, tail.last());
        assert((s + front).push(tail.last()) =~= s + tail);
        let grown = segments(s + front);
        assert(grown.drop_last() =~= segments(s).drop_last());
        assert(grown.last().push(tail.last()) =~= segments(s).last() + tail);
    }
}

/// What is kept of segments without slashes is plain.
proof fn lemma_retained_is_plain(parts: Seq<Seq<char>>)
    requires
        forall|i: int, j: int|
            0 <= i < parts.len() && 0 <= j < parts[i].len() ==> #[trigger] parts[i][j] != '/',
    ensures
        forall|k: int| 0 <= k < retained(parts).len() ==> is_plain(#[trigger] retained(parts)[k]),
    decreases parts.len(),
{
    if parts.len() > 0 {
        let front = parts.drop_last();
        assert forall|i: int, j: int| 0 <= i < front.len() && 0 <= j < front[i].len() implies #[trigger] front[i][j]
            != '/' by {
            assert(front[i][j] == parts[i][j]);
        }
        lemma_retained_is_plain(front);
        let last = parts.last();
        assert forall|j: int| 0 <= j < last.len() implies last[j] != '/' by {
            assert(last[j] == parts[parts.len() - 1][j]);
        }
        let before = retained(front);
        let after = retained(parts);
        assert(after == keep(before, last));
        assert forall|k: int| 0 <= k < after.len() implies is_plain(#[trigger] after[k]) by {
            if k < before.len() {
                assert(after[k] == before[k]);
            } else {
                assert(after[k] == last);
            }
        }
    }
}

/// Cutting the path through plain segments at its slashes gives the empty
/// segment before the first slash, and then those segments.
proof fn lemma_segments_of_rooted(kept: Seq<Seq<char>>)
    requires
        forall|k: int| 0 <= k < kept.len() ==> is_plain(#[trigger] kept[k]),
    ensures
        segments(rooted(kept)) == seq![Seq::<char>::empty()] + kept,
    decreases kept.len(),
{
    if kept.len() == 0 {
        assert(seq![Seq::<char>::empty()] + kept =~= seq![Seq::<char>::empty()]);
    } else {
        let front = kept.drop_last();
        let last = kept.last();
        lemma_segments_of_rooted(front);
        lemma_segments_push(rooted(front), '/');
        assert(rooted(front) + seq!['/'] =~= rooted(front).push('/'));
        assert(is_plain(last));
        lemma_segments_append(rooted(front).push('/'), last);
        let opened = segments(rooted(front).push('/'));
        assert(opened.drop_last() =~= seq![Seq::<char>::empty()] + front);
        assert(opened.last() + last =~= last);
        assert((seq![Seq::<char>::empty()] + front).push(last) =~= seq![Seq::<char>::empty()] + kept);
    }
}

/// Reading the empty segment and then plain segments keeps exactly the plain ones.
proof fn lemma_retained_of_plain(kept: Seq<Seq<char>>)
    requires
        forall|k: int| 0 <= k < kept.len() ==> is_plain(#[trigger] kept[k]),
    ensures
        retained(seq![Seq::<char>::empty()] + kept) == kept,
    decreases kept.len(),
{
    let parts = seq![Seq::<char>::empty()] + kept;
    if kept.len() == 0 {
        assert(parts.drop_last() =~= Seq::<Seq<char>>::empty());
        assert(retained(parts.drop_last()) =~= Seq::<Seq<char>>::empty());
        assert(parts.last().len() == 0);
        assert(retained(parts) =~= kept);
    } else {
        lemma_retained_of_plain(kept.drop_last());
        assert(parts.drop_last() =~= seq![Seq::<char>::empty()] + kept.drop_last());
        assert(parts.last() == kept.last());
        assert(is_plain(kept.last()));
        assert(kept.drop_last().push(kept.last()) =~= kept);
    }
}

/// A path is the slash-joined sequence of its segments: where the first
/// segment is empty, the path leads from the root through the others.
proof fn lemma_rooted_of_segments(s: Seq<char>)
    requires
        segments(s)[0].len() == 0,
    ensures
        rooted(segments(s).skip(1)) == s,
    decreases s.len(),
{
    lemma_segments_nonempty(s);
    if s.len() == 0 {
        assert(segments(s).skip(1) =~= Seq::<Seq<char>>::empty());
    } else {
        let front = s.drop_last();
        let init = segments(front);
        lemma_segments_nonempty(front);
        if s.last() == '/' {
            lemma_rooted_of_segments(front);
            assert(segments(s).skip(1).drop_last() =~= init.skip(1));
            assert(segments(s).skip(1).last().len() == 0);
            assert(front + seq!['/'] + Seq::<char>::empty() =~= s);
        } else {
            assert(init.len() >= 2) by {
                if init.len() == 1 {
                    assert(segments(s)[0] == init.last().push(s.last()));
                }
            }
            assert(segments(s)[0] == init[0]);
            lemma_rooted_of_segments(front);
            let tail = init.skip(1);
            assert(segments(s).skip(1) =~= tail.drop_last().push(tail.last().push(s.last())));
            assert(segments(s).skip(1).drop_last() =~= tail.drop_last());
            assert(rooted(tail) == rooted(tail.drop_last()) + seq!['/'] + tail.last());
            assert(rooted(tail.drop_last()) + seq!['/'] + tail.last().push(s.last()) =~= (rooted(
                tail.drop_last(),
            ) + seq!['/'] + tail.last()).push(s.last()));
            assert(front.push(s.last()) =~= s);
        }
    }
}

/// The result of normalizing is in normal form.
pub proof fn lemma_normalized_is_normal(s: Seq<char>)
    ensures
        is_normal(normalized(s)),
{
    let kept = retained(segments(s));
    lemma_segments_hold_no_slash(s);
    lemma_retained_is_plain(segments(s));
    lemma_segments_of_rooted(kept);
    let parts = segments(normalized(s));
    assert forall|i: int| 1 <= i < parts.len() implies is_plain(#[trigger] parts[i]) by {
        assert(parts[i] == kept[i - 1]);
    }
}

/// Normalizing a path that is in normal form returns it unchanged.
pub proof fn lemma_normal_path_is_fixed(s: Seq<char>)
    requires
        is_normal(s),
    ensures
        normalized(s) == s,
{
    lemma_segments_nonempty(s);
    let parts = segments(s);
    let kept = parts.skip(1);
    assert forall|k: int| 0 <= k < kept.len() implies is_plain(#[trigger] kept[k]) by {
        assert(kept[k] == parts[k + 1]);
    }
    lemma_retained_of_plain(kept);
    assert(parts[0] =~= Seq::<char>::empty());
    assert(seq![Seq::<char>::empty()] + kept =~= parts);
    lemma_rooted_of_segments(s);
}

/// Normalizing is idempotent: a second pass changes nothing.
pub proof fn lemma_normalize_idempotent(s: Seq<char>)
    ensures
        normalized(normalized(s)) == normalized(s),
{
    lemma_normalized_is_normal(s);
    lemma_normal_path_is_fixed(normalized(s));
}

/// Reads the segment `chars[from..to]` into the stack of kept segments.
fn commit(chars: &Vec<char>, stack: &mut Vec<(usize, usize)>, from: usize, to: usize)
    requires
        from <= to <= chars.len(),
        within(old(stack)@, chars.len() as int),
    ensures
        within(final(stack)@, chars.len() as int),
        pieces(chars@, final(stack)@) == keep(
            pieces(chars@, old(stack)@),
            chars@.subrange(from as int, to as int),
        ),
{
    let ghost part = chars@.subrange(from as int, to as int);
    let len: usize = to - from;
    if len == 0 {
    } else if len == 1 && chars[from] == '.' {
        assert(part[0] == chars@[from as int]);
    } else if len == 2 && chars[from] == '.' && chars[from + 1] == '.' {
        assert(part[0] == chars@[from as int]);
        assert(part[1] == chars@[from + 1]);
        if stack.len() > 0 {
            stack.pop();
            assert(pieces(chars@, stack@) =~= pieces(chars@, old(stack)@).drop_last());
        }
    } else {
        assert(!is_dot(part)) by {
            if len == 1 {
                assert(part[0] == chars@[from as int]);
            }
        }
        assert(!is_dot_dot(part)) by {
            if len == 2 {
                assert(part[0] == chars@[from as int]);
                assert(part[1] == chars@[from + 1]);
            }
        }
        stack.push((from, to));
        assert(pieces(chars@, stack@) =~= pieces(chars@, old(stack)@).push(part));
    }
}

/// Brings a path into normal form: splits it at its slashes, drops empty
/// segments and `.`, lets each `..` cancel the segment kept before it (a `..`
/// with nothing before it is dropped), and writes a slash before each
/// segment that is left.
pub fn normalize_path(path: &str) -> (out: String)
    ensures
        out@ == normalized(path@),
{
    let chars = to_chars(path);
    let n: usize = chars.len();
    let mut stack: Vec<(usize, usize)> = Vec::new();
    let mut start: usize = 0;
    let mut i: usize = 0;
    proof {
        assert(path@.take(0) =~= Seq::<char>::empty());
        assert(segments(path@.take(0)).drop_last() =~= Seq::<Seq<char>>::empty());
        assert(pieces(path@, stack@) =~= Seq::<Seq<char>>::empty());
        assert(path@.subrange(0, 0) =~= Seq::<char>::empty());
    }
    while i < n
        invariant
            chars@ == path@,
            n == chars.len(),
            start <= i <= n,
            within(stack@, n as int),
            segments(path@.take(i as int)).len() >= 1,
            segments(path@.take(i as int)).last() == path@.subrange(start as int, i as int),
            retained(segments(path@.take(i as int)).drop_last()) == pieces(path@, stack@),
        decreases n - i,
    {
        let ghost before = segments(path@.take(i as int));
        proof {
            lemma_segments_push(path@.take(i as int), path@[i as int]);
            assert(path@.take(i as int).push(path@[i as int]) =~= path@.take(i + 1));
        }
        if chars[i] == '/' {
            commit(&chars, &mut stack, start, i);
            start = i + 1;
            proof {
                let after = segments(path@.take(i + 1));
                assert(after.drop_last() =~= before);
                assert(after.last() =~= path@.subrange(start as int, i + 1));
            }
        } else {
            proof {
                let after = segments(path@.take(i + 1));
                assert(after.drop_last() =~= before.drop_last());
                assert(after.last() =~= path@.subrange(start as int, i + 1));
            }
        }
        i = i + 1;
    }
    commit(&chars, &mut stack, start, n);
    assert(path@.take(n as int) =~= path@);
    assert(pieces(path@, stack@) == retained(segments(path@)));

    let mut out = String::new();
    let mut k: usize = 0;
    proof {
        reveal_strlit("/");
        assert(pieces(path@, stack@).take(0) =~= Seq::<Seq<char>>::empty());
    }
    while k < stack.len()
        invariant
            k <= stack.len(),
            chars@ == path@,
            "/"@ == seq!['/'],
            within(stack@, chars.len() as int),
            out@ == rooted(pieces(path@, stack@).take(k as int)),
        decreases stack.len() - k,
    {
        let (from, to) = stack[k];
        out.append("/");
        out.append(path.substring_char(from, to));
        proof {
            let all = pieces(path@, stack@);
            assert(all.take(k + 1).drop_last() =~= all.take(k as int));
            assert(all.take(k + 1).last() == path@.subrange(from as int, to as int));
        }
        k = k + 1;
    }
    assert(pieces(path@, stack@).take(k as int) =~= pieces(path@, stack@));
    out
}

/// A name that starts at the root and so replaces the directory it is joined to.
pub open spec fn is_absolute(name: Seq<char>) -> bool {
    name.len() > 0 && name[0] == '/'
}

/// The path to `name` as seen from the directory `base`: `name` itself where
/// it is absolute or `base` is empty, otherwise `base`, a slash unless `base`
/// ends in one, and `name`.
pub open spec fn joined(base: Seq<char>, name: Seq<char>) -> Seq<char> {
    if is_absolute(name) || base.len() == 0 {
        name
    } else if base.last() == '/' {
        base + name
    } else {
        base + seq!['/'] + name
    }
}

/// The last segment of a path.
pub open spec fn base_name(s: Seq<char>) -> Seq<char> {
    segments(s).last()
}

/// What stands before the last slash of a path; empty where it has none.
pub open spec fn parent(s: Seq<char>) -> Seq<char> {
    if segments(s).len() == 1 {
        Seq::empty()
    } else {
        s.take(s.len() - base_name(s).len() - 1)
    }
}

/// The last segment of a path is what follows its last slash, or all of it
/// where it has none.
proof fn lemma_last_segment(s: Seq<char>, cut: int)
    requires
        0 <= cut <= s.len(),
        cut > 0 ==> s[cut - 1] == '/',
        forall|j: int| cut <= j < s.len() ==> s[j] != '/',
    ensures
        base_name(s) == s.skip(cut),
        cut == 0 <==> segments(s).len() == 1,
{
    let tail = s.skip(cut);
    let head = s.take(cut);
    assert(head + tail =~= s);
    lemma_segments_append(head, tail);
    if cut == 0 {
        assert(head =~= Seq::<char>::empty());
        assert(segments(head).last() + tail =~= tail);
    } else {
        lemma_segments_push(head.drop_last(), '/');
        assert(head.drop_last().push('/') =~= head);
        assert(segments(head).last() + tail =~= tail);
    }
}

/// The directory of a path in normal form is in normal form.
pub proof fn lemma_parent_is_normal(s: Seq<char>)
    requires
        is_normal(s),
    ensures
        is_normal(parent(s)),
{
    lemma_segments_nonempty(s);
    let parts = segments(s);
    if parts.len() == 1 {
        assert(segments(Seq::<char>::empty())[0].len() == 0);
    } else {
        let base = base_name(s);
        lemma_segments_hold_no_slash(s);
        assert forall|j: int| 0 <= j < base.len() implies base[j] != '/' by {
            assert(base[j] == parts[parts.len() - 1][j]);
        }
        lemma_rooted_of_segments(s);
        let kept = parts.skip(1);
        // the path is its directory, a slash, and its last segment
        assert(rooted(kept) == rooted(kept.drop_last()) + seq!['/'] + kept.last());
        assert(kept.last() == base);
        let dir = rooted(kept.drop_last());
        assert(s.take(s.len() - base.len() - 1) =~= dir);
        assert forall|k: int| 0 <= k < kept.drop_last().len() implies is_plain(#[trigger] kept.drop_last()[k]) by {
            assert(kept.drop_last()[k] == parts[k + 1]);
        }
        lemma_segments_of_rooted(kept.drop_last());
        let cut = segments(dir);
        assert forall|i: int| 1 <= i < cut.len() implies is_plain(#[trigger] cut[i]) by {
            assert(cut[i] == kept.drop_last()[i - 1]);
        }
    }
}

/// The index just after the last slash of `chars`, or 0 where it has none.
fn after_last_slash(chars: &Vec<char>) -> (cut: usize)
    ensures
        cut <= chars.len(),
        cut > 0 ==> chars@[cut - 1] == '/',
        forall|j: int| cut <= j < chars.len() ==> chars@[j] != '/',
{
    let mut cut: usize = chars.len();
    while cut > 0 && chars[cut - 1] != '/'
        invariant
            cut <= chars.len(),
            forall|j: int| cut <= j < chars.len() ==> chars@[j] != '/',
        decreases cut,
    {
        cut = cut - 1;
    }
    cut
}

/// The last segment of `path`: the name of the file without its directories.
pub fn file_name(path: &str) -> (name: String)
    ensures
        name@ == base_name(path@),
{
    let chars = to_chars(path);
    let cut = after_last_slash(&chars);
    proof {
        lemma_last_segment(path@, cut as int);
        assert(path@.subrange(cut as int, chars.len() as int) =~= path@.skip(cut as int));
    }
    String::from_str(path.substring_char(cut, chars.len()))
}

/// The directory that holds `path`: what stands before its last slash.
pub fn parent_dir(path: &str) -> (dir: String)
    ensures
        dir@ == parent(path@),
{
    let chars = to_chars(path);
    let cut = after_last_slash(&chars);
    proof {
        lemma_last_segment(path@, cut as int);
    }
    if cut == 0 {
        String::new()
    } else {
        proof {
            assert(path@.subrange(0, cut - 1) =~= path@.take(cut - 1));
        }
        String::from_str(path.substring_char(0, cut - 1))
    }
}

/// Joins the directory `base` with `name`.
pub fn join_path(base: &str, name: &str) -> (path: String)
    ensures
        path@ == joined(base@, name@),
{
    let base_len = base.unicode_len();
    if base_len == 0 || (!name.is_empty() && name.get_char(0) == '/') {
        return String::from_str(name);
    }
    let mut path = String::from_str(base);
    if base.get_char(base_len - 1) != '/' {
        proof {
            reveal_strlit("/");
        }
        path.append("/");
    }
    path.append(name);
    path
}

/// The normal form of the path to `name` as seen from the directory `base`.
pub open spec fn resolved(base: Seq<char>, name: Seq<char>) -> Seq<char> {
    normalized(joined(base, name))
}

} // verus!
