use vstd::prelude::*;
use vstd::string::StrSliceExecFns;
use vstd::string::StringExecFns;

use crate::strutil::str_eq;

verus! {

/// What `sanitize_filename::sanitize` returns for a given input. The result
/// depends on the characters of the input alone.
pub uninterp spec fn clean_of(s: Seq<char>) -> Seq<char>;

/// A string made of nothing but `.` characters (and at least one of them).
pub open spec fn all_dots(s: Seq<char>) -> bool {
    s.len() > 0 && forall|i: int| 0 <= i < s.len() ==> s[i] == '.'
}

/// A string with no path separator in it.
pub open spec fn slash_free(s: Seq<char>) -> bool {
    forall|i: int| 0 <= i < s.len() ==> s[i] != '/'
}

/// A path segment that names an actual directory entry: not empty, not the
/// current-directory marker and not the parent-directory marker.
pub open spec fn is_normal(p: Seq<char>) -> bool {
    p.len() > 0 && p != seq!['.'] && p != seq!['.', '.']
}

/// Cleans one path segment at the character level.
///
/// Relies on `sanitize_filename::sanitize` with its defaults on non-Windows
/// platforms: it removes the characters `/?<>\:*|"` and control characters,
/// replaces a segment consisting solely of dots with the empty string, and
/// truncates the result to 255 bytes. Hence the result never contains `/`,
/// is never exactly `.` or `..`, and a nonempty result that is not all dots
/// is left unchanged by a second pass.
#[verifier::external_body]
pub(crate) fn clean_component(s: &str) -> (r: String)
    ensures
        r@ == clean_of(s@),
        slash_free(r@),
        r@ != seq!['.'],
        r@ != seq!['.', '.'],
        r@.len() > 0 && !all_dots(r@) ==> clean_of(r@) == r@,
{
    sanitize_filename::sanitize(s)
}

/// The segments of `s` between `/` separators; an empty string has one empty
/// segment, and each separator starts a new segment.
pub open spec fn split_slash(s: Seq<char>) -> Seq<Seq<char>>
    decreases s.len(),
{
    if s.len() == 0 {
        seq![Seq::<char>::empty()]
    } else if s[0] == '/' {
        seq![Seq::<char>::empty()] + split_slash(s.drop_first())
    } else {
        let rest = split_slash(s.drop_first());
        seq![seq![s[0]] + rest[0]] + rest.drop_first()
    }
}

/// The retained, cleaned components of a decomposed destination: the normal
/// segments, cleaned, with those that cleaned to nothing dropped.
pub open spec fn clean_parts(parts: Seq<Seq<char>>) -> Seq<Seq<char>>
    decreases parts.len(),
{
    if parts.len() == 0 {
        Seq::<Seq<char>>::empty()
    } else {
        let rest = clean_parts(parts.drop_last());
        let p = parts.last();
        if is_normal(p) && clean_of(p).len() > 0 {
            rest.push(clean_of(p))
        } else {
            rest
        }
    }
}

/// The segments joined with `/` between each pair.
pub open spec fn join_slash(parts: Seq<Seq<char>>) -> Seq<char>
    decreases parts.len(),
{
    if parts.len() == 0 {
        Seq::<char>::empty()
    } else if parts.len() == 1 {
        parts[0]
    } else {
        parts[0] + seq!['/'] + join_slash(parts.drop_first())
    }
}

/// The normalized absolute logical path for a destination input: `/` when no
/// segment survives, else the surviving cleaned segments wrapped and joined
/// with `/`.
pub open spec fn sanitize_spec(s: Seq<char>) -> Seq<char> {
    let cleaned = clean_parts(split_slash(s));
    if cleaned.len() == 0 {
        seq!['/']
    } else {
        seq!['/'] + join_slash(cleaned) + seq!['/']
    }
}

/// The shape every sanitized destination has: `/` alone, or `/`-wrapped
/// segments each of which is normal (nonempty, not `.`, not `..`).
pub open spec fn is_sane_path(p: Seq<char>) -> bool {
    let parts = split_slash(p);
    &&& p.len() >= 1
    &&& p.first() == '/'
    &&& p.last() == '/'
    &&& parts.first().len() == 0
    &&& parts.last().len() == 0
    &&& forall|k: int| 1 <= k < parts.len() - 1 ==> is_normal(#[trigger] parts[k])
}

/// A segment with no `/` splits to itself alone.
proof fn lemma_split_slash_free(p: Seq<char>)
    requires
        forall|i: int| 0 <= i < p.len() ==> p[i] != '/',
    ensures
        split_slash(p) =~= seq![p],
    decreases p.len(),
{
    if p.len() == 0 {
        assert(p =~= Seq::<char>::empty());
        assert(split_slash(p) =~= seq![p]);
    } else {
        lemma_split_slash_free(p.drop_first());
        assert(seq![p[0]] + p.drop_first() =~= p);
    }
}

/// Splitting distributes over the first separator.
proof fn lemma_split_prepend(p: Seq<char>, y: Seq<char>)
    requires
        forall|i: int| 0 <= i < p.len() ==> p[i] != '/',
    ensures
        split_slash(p + seq!['/'] + y) =~= seq![p] + split_slash(y),
    decreases p.len(),
{
    let s = p + seq!['/'] + y;
    if p.len() == 0 {
        assert(s[0] == '/');
        assert(s.drop_first() =~= y);
        assert(split_slash(s) =~= seq![Seq::<char>::empty()] + split_slash(y));
        assert(p =~= Seq::<char>::empty());
    } else {
        let p2 = p.drop_first();
        lemma_split_prepend(p2, y);
        assert(s[0] == p[0]);
        assert(s[0] != '/');
        assert(s.drop_first() =~= p2 + seq!['/'] + y);
        let rest = split_slash(p2 + seq!['/'] + y);
        assert(rest =~= seq![p2] + split_slash(y));
        assert(rest[0] == p2);
        assert(seq![s[0]] + rest[0] =~= p);
        assert(rest.drop_first() =~= split_slash(y));
        assert(split_slash(s) =~= seq![p] + split_slash(y));
    }
}

/// Splitting a join with a trailing separator recovers the segments plus one
/// final empty segment.
proof fn lemma_split_of_joined_tail(parts: Seq<Seq<char>>)
    requires
        parts.len() >= 1,
        forall|k: int, i: int|
            0 <= k < parts.len() && 0 <= i < parts[k].len() ==> #[trigger] parts[k][i] != '/',
    ensures
        split_slash(join_slash(parts) + seq!['/']) =~= parts + seq![Seq::<char>::empty()],
    decreases parts.len(),
{
    if parts.len() == 1 {
        assert(join_slash(parts) == parts[0]);
        lemma_split_prepend(parts[0], Seq::<char>::empty());
        assert(join_slash(parts) + seq!['/'] =~= parts[0] + seq!['/'] + Seq::<char>::empty());
        assert(split_slash(Seq::<char>::empty()) =~= seq![Seq::<char>::empty()]);
        assert(split_slash(join_slash(parts) + seq!['/']) =~= parts + seq![Seq::<char>::empty()]);
    } else {
        let rest = parts.drop_first();
        lemma_split_of_joined_tail(rest);
        lemma_split_prepend(parts[0], join_slash(rest) + seq!['/']);
        assert(join_slash(parts) + seq!['/'] =~= parts[0] + seq!['/'] + (join_slash(rest)
            + seq!['/']));
        assert(split_slash(join_slash(parts) + seq!['/']) =~= seq![parts[0]] + (rest
            + seq![Seq::<char>::empty()]));
        assert(seq![parts[0]] + (rest + seq![Seq::<char>::empty()]) =~= parts + seq![
            Seq::<char>::empty(),
        ]);
    }
}

/// Splitting a fully wrapped join recovers an empty segment, the segments,
/// and a final empty segment.
proof fn lemma_split_of_wrapped(parts: Seq<Seq<char>>)
    requires
        parts.len() >= 1,
        forall|k: int, i: int|
            0 <= k < parts.len() && 0 <= i < parts[k].len() ==> #[trigger] parts[k][i] != '/',
    ensures
        split_slash(seq!['/'] + join_slash(parts) + seq!['/']) =~= seq![Seq::<char>::empty()]
            + parts + seq![Seq::<char>::empty()],
{
    let s = seq!['/'] + join_slash(parts) + seq!['/'];
    lemma_split_of_joined_tail(parts);
    assert(s[0] == '/');
    assert(s.drop_first() =~= join_slash(parts) + seq!['/']);
    assert(split_slash(s) =~= seq![Seq::<char>::empty()] + (parts + seq![Seq::<char>::empty()]));
    assert(seq![Seq::<char>::empty()] + (parts + seq![Seq::<char>::empty()]) =~= seq![
        Seq::<char>::empty(),
    ] + parts + seq![Seq::<char>::empty()]);
}

/// Appending a segment appends it to the join after one more separator.
proof fn lemma_join_push(parts: Seq<Seq<char>>, x: Seq<char>)
    requires
        parts.len() >= 1,
    ensures
        join_slash(parts.push(x)) =~= join_slash(parts) + seq!['/'] + x,
    decreases parts.len(),
{
    if parts.len() == 1 {
        let two = parts.push(x);
        assert(two.len() == 2);
        assert(two[0] == parts[0]);
        assert(two.drop_first() =~= seq![x]);
        assert(join_slash(two.drop_first()) == x);
    } else {
        lemma_join_push(parts.drop_first(), x);
        let pushed = parts.push(x);
        assert(pushed.drop_first() =~= parts.drop_first().push(x));
        assert(join_slash(pushed) =~= pushed[0] + seq!['/'] + join_slash(pushed.drop_first()));
        assert(join_slash(pushed) =~= parts[0] + seq!['/'] + (join_slash(parts.drop_first())
            + seq!['/'] + x));
        assert(parts[0] + seq!['/'] + (join_slash(parts.drop_first()) + seq!['/'] + x) =~= (
        parts[0] + seq!['/'] + join_slash(parts.drop_first())) + seq!['/'] + x);
    }
}

/// Normalizes a user-supplied destination string into a safe, absolute,
/// slash-separated logical path: decompose at `/`, drop non-normal segments
/// (empty, `.`, `..`), clean each survivor at the character level, drop the
/// ones that cleaned to nothing, and rejoin wrapped in `/`.
///
/// An input that does not start with `/` is accepted and treated as relative
/// to the root; sanitization is best-effort and never rejects an input.
///
/// The result always has the safe shape (`/` or `/seg(/seg)*/`, no segment
/// empty, `.` or `..`), and sanitizing it again changes nothing, unless some
/// surviving segment was cut down to a string of dots by the 255-byte
/// truncation of the character-level cleaner.
pub fn sanitize_destination(input: &str) -> (r: String)
    ensures
        r@ == sanitize_spec(input@),
        is_sane_path(r@),
        (forall|k: int|
            0 <= k < clean_parts(split_slash(input@)).len() ==> !all_dots(
                #[trigger] clean_parts(split_slash(input@))[k],
            )) ==> sanitize_spec(r@) == r@,
{
    let len = input.unicode_len();

    // Decompose the input at `/` separators.
    let mut raw: Vec<String> = Vec::new();
    let mut i: usize = 0;
    proof {
        assert(input@.subrange(0, len as int) =~= input@);
        assert(raw@.map_values(|s: String| s@) =~= Seq::<Seq<char>>::empty());
    }
    loop
        invariant_except_break
            len == input@.len(),
            0 <= i <= len,
            split_slash(input@) =~= raw@.map_values(|s: String| s@) + split_slash(
                input@.subrange(i as int, len as int),
            ),
        ensures
            split_slash(input@) =~= raw@.map_values(|s: String| s@),
        decreases len - i,
    {
        let mut j: usize = i;
        while j < len && input.get_char(j) != '/'
            invariant
                len == input@.len(),
                i <= j <= len,
                forall|t: int| i <= t < j ==> input@[t] != '/',
            decreases len - j,
        {
            j = j + 1;
        }
        let seg = String::from_str(input.substring_char(i, j));
        proof {
            if j < len {
                assert(input@.subrange(i as int, len as int) =~= seg@ + seq!['/']
                    + input@.subrange(j + 1, len as int));
                lemma_split_prepend(seg@, input@.subrange(j + 1, len as int));
            } else {
                assert(input@.subrange(i as int, len as int) =~= seg@);
                lemma_split_slash_free(seg@);
            }
            assert(raw@.push(seg).map_values(|s: String| s@) =~= raw@.map_values(
                |s: String| s@,
            ).push(seg@));
        }
        raw.push(seg);
        if j == len {
            proof {
                assert(split_slash(input@) =~= raw@.map_values(|s: String| s@));
            }
            break;
        }
        i = j + 1;
    }

    // Keep the normal segments, cleaned; drop what cleans to nothing.
    let mut parts: Vec<String> = Vec::new();
    let mut k: usize = 0;
    while k < raw.len()
        invariant
            0 <= k <= raw@.len(),
            parts@.map_values(|s: String| s@) =~= clean_parts(
                raw@.subrange(0, k as int).map_values(|s: String| s@),
            ),
            forall|t: int, c: int|
                0 <= t < parts@.len() && 0 <= c < parts@[t]@.len() ==> #[trigger] parts@[t]@[c]
                    != '/',
            forall|t: int| 0 <= t < parts@.len() ==> is_normal(#[trigger] parts@[t]@),
            forall|t: int|
                0 <= t < parts@.len() ==> (!all_dots(#[trigger] parts@[t]@) ==> clean_of(parts@[t]@)
                    == parts@[t]@),
        decreases raw@.len() - k,
    {
        let seg = &raw[k];
        let ghost prefix = raw@.subrange(0, k as int).map_values(|s: String| s@);
        let ghost prefix2 = raw@.subrange(0, k as int + 1).map_values(|s: String| s@);
        proof {
            assert(prefix2.drop_last() =~= prefix);
            assert(prefix2.last() == raw@[k as int]@);
        }
        let normal = !seg.as_str().is_empty() && !str_eq(seg.as_str(), ".") && !str_eq(
            seg.as_str(),
            "..",
        );
        proof {
            reveal_strlit(".");
            reveal_strlit("..");
            assert("."@ =~= seq!['.']);
            assert(".."@ =~= seq!['.', '.']);
            assert(normal == is_normal(raw@[k as int]@));
        }
        if normal {
            let cleaned = clean_component(seg.as_str());
            if !cleaned.as_str().is_empty() {
                proof {
                    assert(parts@.push(cleaned).map_values(|s: String| s@) =~= parts@.map_values(
                        |s: String| s@,
                    ).push(cleaned@));
                }
                parts.push(cleaned);
            }
        }
        k = k + 1;
    }
    proof {
        assert(raw@.subrange(0, raw@.len() as int) =~= raw@);
        assert(parts@.map_values(|s: String| s@) =~= clean_parts(split_slash(input@)));
    }
    let ghost cp = clean_parts(split_slash(input@));

    // Rejoin, wrapped in a leading and a trailing separator.
    let mut r = String::from_str("/");
    proof {
        reveal_strlit("/");
        assert(r@ =~= seq!['/']);
    }
    if parts.len() == 0 {
        proof {
            assert(r@ =~= seq!['/']);
            assert(seq!['/'].drop_first() =~= Seq::<char>::empty());
            assert(split_slash(Seq::<char>::empty()) =~= seq![Seq::<char>::empty()]);
            assert(split_slash(r@) =~= seq![Seq::<char>::empty(), Seq::<char>::empty()]);
            assert(is_sane_path(r@));
            assert(seq![Seq::<char>::empty(), Seq::<char>::empty()].drop_last() =~= seq![
                Seq::<char>::empty(),
            ]);
            assert(seq![Seq::<char>::empty()].drop_last() =~= Seq::<Seq<char>>::empty());
            assert(clean_parts(Seq::<Seq<char>>::empty()) =~= Seq::<Seq<char>>::empty());
            assert(clean_parts(seq![Seq::<char>::empty()]) =~= Seq::<Seq<char>>::empty());
            assert(clean_parts(split_slash(r@)) =~= Seq::<Seq<char>>::empty());
            assert(sanitize_spec(r@) == r@);
        }
        return r;
    }
    let mut t: usize = 0;
    while t < parts.len()
        invariant
            0 <= t <= parts@.len(),
            parts@.len() >= 1,
            forall|u: int, c: int|
                0 <= u < parts@.len() && 0 <= c < parts@[u]@.len() ==> #[trigger] parts@[u]@[c]
                    != '/',
            forall|u: int| 0 <= u < parts@.len() ==> is_normal(#[trigger] parts@[u]@),
            if t == 0 {
                r@ =~= seq!['/']
            } else {
                r@ =~= seq!['/'] + join_slash(
                    parts@.subrange(0, t as int).map_values(|s: String| s@),
                ) + seq!['/']
            },
        decreases parts@.len() - t,
    {
        let ghost pre = parts@.subrange(0, t as int).map_values(|s: String| s@);
        let ghost pre2 = parts@.subrange(0, t as int + 1).map_values(|s: String| s@);
        proof {
            assert(pre2 =~= pre.push(parts@[t as int]@));
            if t > 0 {
                lemma_join_push(pre, parts@[t as int]@);
            }
        }
        r.append(parts[t].as_str());
        r.append("/");
        proof {
            reveal_strlit("/");
            assert("/"@ =~= seq!['/']);
            if t == 0 {
                assert(join_slash(pre2) == parts@[0]@);
                assert(r@ =~= seq!['/'] + join_slash(pre2) + seq!['/']);
            } else {
                assert(r@ =~= seq!['/'] + join_slash(pre2) + seq!['/']);
            }
        }
        t = t + 1;
    }
    proof {
        let ps = parts@.map_values(|s: String| s@);
        assert(parts@.subrange(0, parts@.len() as int) =~= parts@);
        assert(ps =~= cp);
        assert(r@ =~= seq!['/'] + join_slash(cp) + seq!['/']);
        assert(r@ == sanitize_spec(input@));

        lemma_split_of_wrapped(ps);
        let rparts = split_slash(r@);
        assert(rparts =~= seq![Seq::<char>::empty()] + ps + seq![Seq::<char>::empty()]);
        assert(r@.first() == '/');
        assert(r@.last() == '/');
        assert(forall|u: int| 1 <= u < rparts.len() - 1 ==> rparts[u] == ps[u - 1]);
        assert(is_sane_path(r@));

        // Idempotence, under the no-all-dots hypothesis.
        if forall|u: int| 0 <= u < cp.len() ==> !all_dots(#[trigger] cp[u]) {
            lemma_clean_parts_of_fixed(rparts, ps);
            assert(clean_parts(split_slash(r@)) =~= ps);
            assert(sanitize_spec(r@) == r@);
        }
    }
    r
}

/// Cleaning the split of a sanitized path keeps exactly its segments, when
/// each segment is a fixed point of the cleaner.
proof fn lemma_clean_parts_of_fixed(rparts: Seq<Seq<char>>, ps: Seq<Seq<char>>)
    requires
        rparts =~= seq![Seq::<char>::empty()] + ps + seq![Seq::<char>::empty()],
        forall|u: int| 0 <= u < ps.len() ==> is_normal(#[trigger] ps[u]),
        forall|u: int| 0 <= u < ps.len() ==> clean_of(#[trigger] ps[u]) == ps[u],
    ensures
        clean_parts(rparts) =~= ps,
{
    lemma_clean_parts_head_empty(rparts, ps);
}

/// Helper: cleaning `[""] + xs + [""]` where every element of `xs` is a
/// normal fixed point yields `xs`.
proof fn lemma_clean_parts_head_empty(rparts: Seq<Seq<char>>, ps: Seq<Seq<char>>)
    requires
        rparts =~= seq![Seq::<char>::empty()] + ps + seq![Seq::<char>::empty()],
        forall|u: int| 0 <= u < ps.len() ==> is_normal(#[trigger] ps[u]),
        forall|u: int| 0 <= u < ps.len() ==> clean_of(#[trigger] ps[u]) == ps[u],
    ensures
        clean_parts(rparts) =~= ps,
{
    assert(rparts.last().len() == 0);
    assert(!is_normal(rparts.last()));
    assert(rparts.drop_last() =~= seq![Seq::<char>::empty()] + ps);
    lemma_clean_parts_after_empty(ps);
    assert(clean_parts(rparts) =~= clean_parts(seq![Seq::<char>::empty()] + ps));
}

/// Helper: cleaning `[""] + xs` where every element of `xs` is a normal
/// fixed point yields `xs`.
proof fn lemma_clean_parts_after_empty(ps: Seq<Seq<char>>)
    requires
        forall|u: int| 0 <= u < ps.len() ==> is_normal(#[trigger] ps[u]),
        forall|u: int| 0 <= u < ps.len() ==> clean_of(#[trigger] ps[u]) == ps[u],
    ensures
        clean_parts(seq![Seq::<char>::empty()] + ps) =~= ps,
    decreases ps.len(),
{
    let whole = seq![Seq::<char>::empty()] + ps;
    if ps.len() == 0 {
        assert(whole =~= seq![Seq::<char>::empty()]);
        assert(whole.last().len() == 0);
        assert(!is_normal(whole.last()));
        assert(whole.drop_last() =~= Seq::<Seq<char>>::empty());
        assert(clean_parts(Seq::<Seq<char>>::empty()) =~= Seq::<Seq<char>>::empty());
        assert(clean_parts(whole) =~= Seq::<Seq<char>>::empty());
    } else {
        assert(whole.last() == ps.last());
        assert(is_normal(whole.last()));
        assert(clean_of(whole.last()) == ps.last());
        assert(ps.last().len() > 0);
        assert(whole.drop_last() =~= seq![Seq::<char>::empty()] + ps.drop_last());
        lemma_clean_parts_after_empty(ps.drop_last());
        assert(clean_parts(whole) =~= clean_parts(whole.drop_last()).push(ps.last()));
        assert(clean_parts(whole.drop_last()).push(ps.last()) =~= ps.drop_last().push(ps.last()));
        assert(ps.drop_last().push(ps.last()) =~= ps);
    }
}

} // verus!
