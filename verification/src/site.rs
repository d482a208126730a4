use vstd::prelude::*;

use crate::docs::{find_sub, lemma_find_bounds, spec_find};
use crate::tags::{covered, covered_witness, lemma_covered};
use crate::util::{str_chars, str_eq, string_range};

verus! {

/// The words the statistics pass counts.
pub open spec fn spec_swears() -> Seq<Seq<char>> {
    seq![
        "fuck"@,
        "shit"@,
        "damn"@,
        "crap"@,
        "piss"@,
        "cunt"@,
        "cock"@,
        "tits"@,
    ]
}

/// How many non-overlapping occurrences of `pat` the scan of `s` from
/// position `i` finds, taking the leftmost occurrence each time.
pub open spec fn spec_count_matches(pat: Seq<char>, s: Seq<char>, i: int) -> nat
    decreases s.len() - i,
    when 0 <= i <= s.len() && pat.len() >= 1
    via spec_count_matches_decreases
{
    match spec_find(pat, s, i) {
        None => 0,
        Some(j) => if j + pat.len() <= s.len() {
            (1 + spec_count_matches(pat, s, j + pat.len())) as nat
        } else {
            1
        },
    }
}

#[via_fn]
proof fn spec_count_matches_decreases(pat: Seq<char>, s: Seq<char>, i: int) {
    if 0 <= i <= s.len() && pat.len() >= 1 {
        if spec_find(pat, s, i) is Some {
            lemma_find_bounds(pat, s, i);
        }
    }
}

/// Count the non-overlapping occurrences of a word.
fn count_matches(pat: &Vec<char>, text: &Vec<char>) -> (r: usize)
    requires
        1 <= pat@.len(),
    ensures
        r == spec_count_matches(pat@, text@, 0),
{
    let n = text.len();
    let mut count: usize = 0;
    let mut i: usize = 0;
    let mut done = false;
    while !done
        invariant
            0 <= i <= n,
            n == text@.len(),
            1 <= pat@.len(),
            count <= i,
            !done ==> count + spec_count_matches(pat@, text@, i as int) == spec_count_matches(
                pat@,
                text@,
                0,
            ),
            done ==> count == spec_count_matches(pat@, text@, 0),
        decreases 2 * (n - i) + (if done {
            0int
        } else {
            1int
        }),
    {
        match find_sub(pat, text, i) {
            Some(j) => {
                proof {
                    lemma_find_bounds(pat@, text@, i as int);
                }
                count = count + 1;
                i = j + pat.len();
            },
            None => {
                done = true;
            },
        }
    }
    count
}

/// Count each of the counted words' non-overlapping occurrences in the
/// text, word by word in a fixed order.
pub fn count_swears(text: &str) -> (r: Vec<(String, usize)>)
    ensures
        r@.len() == spec_swears().len(),
        forall|k: int|
            0 <= k < r@.len() ==> (#[trigger] r@[k].0@ == spec_swears()[k] && r@[k].1
                == spec_count_matches(spec_swears()[k], text@, 0)),
{
    let cs = str_chars(text);
    let words: Vec<&str> = vec!["fuck", "shit", "damn", "crap", "piss", "cunt", "cock", "tits"];
    let mut r: Vec<(String, usize)> = Vec::new();
    let mut k: usize = 0;
    proof {
        assert(words@.map_values(|w: &str| w@) =~~= spec_swears());
    }
    while k < words.len()
        invariant
            0 <= k <= words@.len(),
            cs@ == text@,
            words@.map_values(|w: &str| w@) == spec_swears(),
            words@.len() == spec_swears().len(),
            r@.len() == k,
            forall|q: int|
                0 <= q < k ==> (#[trigger] r@[q].0@ == spec_swears()[q] && r@[q].1
                    == spec_count_matches(spec_swears()[q], text@, 0)),
        decreases words@.len() - k,
    {
        let w = words[k];
        let wcs = str_chars(w);
        proof {
            assert(w@ == spec_swears()[k as int]);
            reveal_strlit("fuck");
            reveal_strlit("shit");
            reveal_strlit("damn");
            reveal_strlit("crap");
            reveal_strlit("piss");
            reveal_strlit("cunt");
            reveal_strlit("cock");
            reveal_strlit("tits");
            assert(wcs@.len() >= 1);
        }
        let c = count_matches(&wcs, &cs);
        proof {
            assert(wcs@ == spec_swears()[k as int]);
        }
        r.push((w.to_owned(), c));
        k = k + 1;
    }
    r
}

/// A string split at every separator: the pieces between separators, in
/// order, empty pieces kept.
pub open spec fn spec_split(s: Seq<char>, sep: char) -> Seq<Seq<char>>
    decreases s.len(),
    via spec_split_decreases
{
    match spec_find(seq![sep], s, 0) {
        None => seq![s],
        Some(j) => seq![s.take(j)] + spec_split(s.skip(j + 1), sep),
    }
}

#[via_fn]
proof fn spec_split_decreases(s: Seq<char>, sep: char) {
    if spec_find(seq![sep], s, 0) is Some {
        lemma_find_bounds(seq![sep], s, 0);
    }
}

/// Split a string at every separator.
pub fn split_at_char(s: &str, sep: char) -> (r: Vec<String>)
    ensures
        r@.map_values(|p: String| p@) == spec_split(s@, sep),
    decreases s@.len(),
{
    let cs = str_chars(s);
    let mut pat: Vec<char> = Vec::new();
    pat.push(sep);
    proof {
        assert(pat@ =~~= seq![sep]);
    }
    let mut r: Vec<String> = Vec::new();
    let mut start: usize = 0;
    let n = cs.len();
    let ghost whole = s@;
    let mut done = false;
    proof {
        assert(whole.skip(0) =~~= whole);
        assert(r@.map_values(|p: String| p@) + spec_split(whole, sep) =~~= spec_split(
            whole,
            sep,
        ));
    }
    while !done
        invariant
            0 <= start <= n,
            n == cs@.len(),
            cs@ == whole,
            pat@ == seq![sep],
            !done ==> r@.map_values(|p: String| p@) + spec_split(whole.skip(start as int), sep)
                == spec_split(whole, sep),
            done ==> r@.map_values(|p: String| p@) == spec_split(whole, sep),
        decreases 2 * (n - start) + (if done {
            0int
        } else {
            1int
        }),
    {
        let ghost rest = whole.skip(start as int);
        match find_sub(&pat, &cs, start) {
            Some(j) => {
                proof {
                    lemma_find_bounds(pat@, cs@, start as int);
                    assert(spec_find(seq![sep], rest, 0) == Some(j - start)) by {
                        lemma_find_offset(sep, whole, start as int, j as int);
                    }
                }
                let ghost pre = r@;
                let piece = string_range(&cs, start, j);
                r.push(piece);
                proof {
                    assert(rest.take(j - start) =~~= whole.subrange(start as int, j as int));
                    assert(rest.skip(j - start + 1) =~~= whole.skip(j + 1));
                    assert(r@.map_values(|p: String| p@) =~~= pre.map_values(|p: String| p@)
                        + seq![whole.subrange(start as int, j as int)]);
                    assert(r@.map_values(|p: String| p@) + spec_split(whole.skip(j + 1), sep)
                        =~~= spec_split(whole, sep));
                }
                start = j + 1;
            },
            None => {
                proof {
                    assert(spec_find(seq![sep], rest, 0) is None) by {
                        lemma_find_offset_none(sep, whole, start as int);
                    }
                }
                let ghost pre = r@;
                let piece = string_range(&cs, start, n);
                r.push(piece);
                proof {
                    assert(piece@ =~~= rest);
                    assert(r@.map_values(|p: String| p@) =~~= pre.map_values(|p: String| p@)
                        + seq![rest]);
                    assert(r@.map_values(|p: String| p@) =~~= spec_split(whole, sep));
                }
                done = true;
            },
        }
    }
    r
}

proof fn lemma_find_offset(sep: char, s: Seq<char>, base: int, j: int)
    requires
        0 <= base <= s.len(),
        spec_find(seq![sep], s, base) == Some(j),
    ensures
        spec_find(seq![sep], s.skip(base), 0) == Some(j - base),
{
    lemma_find_shift(sep, s, base, base);
}

proof fn lemma_find_offset_none(sep: char, s: Seq<char>, base: int)
    requires
        0 <= base <= s.len(),
        spec_find(seq![sep], s, base) is None,
    ensures
        spec_find(seq![sep], s.skip(base), 0) is None,
{
    lemma_find_shift(sep, s, base, base);
}

proof fn lemma_find_shift(sep: char, s: Seq<char>, base: int, i: int)
    requires
        0 <= base <= i <= s.len(),
    ensures
        spec_find(seq![sep], s.skip(base), i - base) == match spec_find(seq![sep], s, i) {
            Some(j) => Some(j - base),
            None => None::<int>,
        },
    decreases s.len() - i,
{
    let t = s.skip(base);
    assert(t.len() == s.len() - base);
    if i + 1 > s.len() {
    } else {
        assert(t.subrange(i - base, i - base + 1) =~~= s.subrange(i, i + 1));
        if s.subrange(i, i + 1) == seq![sep] {
        } else {
            lemma_find_shift(sep, s, base, i + 1);
        }
    }
}

/// True when `prefix` is a URL parent of `url`: walking both paths
/// segment by segment, matching segments are consumed together, and the
/// walk succeeds when the prefix runs out, or stops early at an empty
/// prefix segment, before any mismatch.
pub open spec fn spec_path_has_prefix(hay: Seq<Seq<char>>, nee: Seq<Seq<char>>) -> bool
    decreases nee.len(),
{
    if nee.len() == 0 {
        true
    } else if hay.len() == 0 {
        nee[0].len() == 0
    } else if hay[0] == nee[0] {
        spec_path_has_prefix(hay.drop_first(), nee.drop_first())
    } else {
        nee[0].len() == 0
    }
}

/// True when `prefix` is a URL parent of `url`.
pub fn path_has_prefix(url: &str, prefix: &str) -> (r: bool)
    ensures
        r == spec_path_has_prefix(spec_split(url@, '/'), spec_split(prefix@, '/')),
{
    let hay = split_at_char(url, '/');
    let nee = split_at_char(prefix, '/');
    let ghost hs = hay@.map_values(|p: String| p@);
    let ghost ns = nee@.map_values(|p: String| p@);
    let mut i: usize = 0;
    proof {
        assert(hs.skip(0) =~~= hs);
        assert(ns.skip(0) =~~= ns);
    }
    while i < nee.len()
        invariant
            0 <= i <= ns.len() == nee@.len(),
            hs == hay@.map_values(|p: String| p@),
            ns == nee@.map_values(|p: String| p@),
            hs == spec_split(url@, '/'),
            ns == spec_split(prefix@, '/'),
            spec_path_has_prefix(hs, ns) == spec_path_has_prefix(
                hs.skip(if i <= hs.len() { i as int } else { hs.len() as int }),
                ns.skip(i as int),
            ),
            i <= hs.len() + 1,
        decreases ns.len() - i,
    {
        proof {
            assert(ns.skip(i as int)[0] == ns[i as int]);
        }
        if i >= hay.len() {
            proof {
                assert(hs.skip(hs.len() as int) =~~= Seq::<Seq<char>>::empty());
            }
            return nee[i].as_str().unicode_len() == 0;
        }
        proof {
            assert(hs.skip(i as int)[0] == hs[i as int]);
        }
        if !str_eq(hay[i].as_str(), nee[i].as_str()) {
            return nee[i].as_str().unicode_len() == 0;
        }
        proof {
            assert(hs.skip(i as int).drop_first() =~~= hs.skip(i + 1));
            assert(ns.skip(i as int).drop_first() =~~= ns.skip(i + 1));
        }
        i = i + 1;
    }
    proof {
        assert(ns.skip(ns.len() as int) =~~= Seq::<Seq<char>>::empty());
    }
    true
}

/// Every (item index, tag) application a list of tagged items makes, in
/// item order, then tag order.
pub open spec fn spec_tag_pairs(items: Seq<Seq<Seq<char>>>) -> Seq<(int, Seq<char>)>
    decreases items.len(),
{
    if items.len() == 0 {
        Seq::empty()
    } else {
        spec_tag_pairs(items.drop_last()) + items.last().map_values(
            |t: Seq<char>| ((items.len() - 1) as int, t),
        )
    }
}

/// The items a tag collects: every item index whose application names
/// the tag, in order, once per occurrence.
pub open spec fn spec_postings(ps: Seq<(int, Seq<char>)>, tag: Seq<char>) -> Seq<int>
    decreases ps.len(),
{
    if ps.len() == 0 {
        Seq::empty()
    } else if ps.last().1 == tag {
        spec_postings(ps.drop_last(), tag).push(ps.last().0)
    } else {
        spec_postings(ps.drop_last(), tag)
    }
}

/// True when some application names the tag.
pub open spec fn spec_names_tag(ps: Seq<(int, Seq<char>)>, tag: Seq<char>) -> bool {
    exists|k: int| 0 <= k < ps.len() && ps[k].1 == tag
}

proof fn names_tag_witness(ps: Seq<(int, Seq<char>)>, tag: Seq<char>) -> (k: int)
    requires
        spec_names_tag(ps, tag),
    ensures
        0 <= k < ps.len() && ps[k].1 == tag,
{
    choose|k: int| 0 <= k < ps.len() && ps[k].1 == tag
}

/// A tag no application names collects nothing.
pub proof fn lemma_postings_unnamed(ps: Seq<(int, Seq<char>)>, tag: Seq<char>)
    requires
        !spec_names_tag(ps, tag),
    ensures
        spec_postings(ps, tag) == Seq::<int>::empty(),
    decreases ps.len(),
{
    if ps.len() > 0 {
        assert(ps.last() == ps[ps.len() - 1]);
        assert(forall|k: int| 0 <= k < ps.len() - 1 ==> ps.drop_last()[k] == ps[k]);
        lemma_postings_unnamed(ps.drop_last(), tag);
    }
}

/// The index a tagged collection materializes: one entry per tag, each
/// carrying the indices of the items that bear it, in order, once per
/// occurrence. Every given key has an entry even when no item bears it,
/// and every tag observed on an item has one even when it is no key.
pub fn build_tag_index(keys: &Vec<String>, items: &Vec<Vec<String>>) -> (r: Vec<
    (String, Vec<usize>),
>)
    requires
        forall|i: int, j: int| 0 <= i < j < keys@.len() ==> keys@[i]@ != keys@[j]@,
        items@.len() < usize::MAX,
    ensures
        ({
            let pairs = spec_tag_pairs(
                items@.map_values(|ts: Vec<String>| ts@.map_values(|s: String| s@)),
            );
            let out = r@;
            &&& (forall|i: int, j: int| 0 <= i < j < out.len() ==> out[i].0@ != out[j].0@)
            &&& (forall|i: int|
                0 <= i < out.len() ==> (#[trigger] out[i]).1@.map_values(|x: usize| x as int)
                    == spec_postings(pairs, out[i].0@))
            &&& (forall|k: int|
                0 <= k < keys@.len() ==> covered(
                    out.map_values(|p: (String, Vec<usize>)| p.0),
                    #[trigger] keys@[k]@,
                ))
            &&& (forall|k: int|
                0 <= k < pairs.len() ==> covered(
                    out.map_values(|p: (String, Vec<usize>)| p.0),
                    #[trigger] pairs[k].1,
                ))
        }),
{
    let ghost iv = items@.map_values(|ts: Vec<String>| ts@.map_values(|s: String| s@));
    let ghost pairs = spec_tag_pairs(iv);
    // Flatten the applications.
    let mut flat: Vec<(usize, String)> = Vec::new();
    let mut a: usize = 0;
    proof {
        assert(iv.take(0) =~~= Seq::<Seq<Seq<char>>>::empty());
        assert(flat@.map_values(|p: (usize, String)| (p.0 as int, p.1@)) =~~= spec_tag_pairs(
            iv.take(0),
        ));
    }
    while a < items.len()
        invariant
            0 <= a <= items@.len(),
            items@.len() < usize::MAX,
            iv == items@.map_values(|ts: Vec<String>| ts@.map_values(|s: String| s@)),
            iv.len() == items@.len(),
            flat@.map_values(|p: (usize, String)| (p.0 as int, p.1@)) == spec_tag_pairs(
                iv.take(a as int),
            ),
        decreases items@.len() - a,
    {
        let ts = &items[a];
        let ghost tv = iv[a as int];
        let mut b: usize = 0;
        while b < ts.len()
            invariant
                0 <= b <= ts@.len(),
                0 <= (a as int) < iv.len(),
                ts == &items@[a as int],
                tv == iv[a as int],
                tv.len() == ts@.len(),
                forall|q: int| 0 <= q < tv.len() ==> #[trigger] tv[q] == ts@[q]@,
                flat@.map_values(|p: (usize, String)| (p.0 as int, p.1@)) == spec_tag_pairs(
                    iv.take(a as int),
                ) + tv.map_values(|t: Seq<char>| (a as int, t)).take(b as int),
            decreases ts@.len() - b,
        {
            let ghost pre = flat@;
            flat.push((a, ts[b].clone()));
            proof {
                assert(flat@.map_values(|p: (usize, String)| (p.0 as int, p.1@)) =~~= pre
                    .map_values(|p: (usize, String)| (p.0 as int, p.1@)) + seq![
                    (a as int, tv[b as int]),
                ]);
                assert(tv.map_values(|t: Seq<char>| (a as int, t)).take(b + 1) =~~= tv.map_values(
                    |t: Seq<char>| (a as int, t),
                ).take(b as int) + seq![(a as int, tv[b as int])]);
            }
            b = b + 1;
        }
        proof {
            assert(tv.map_values(|t: Seq<char>| (a as int, t)).take(tv.len() as int) =~~= tv
                .map_values(|t: Seq<char>| (a as int, t)));
            assert(iv.take(a + 1).drop_last() =~~= iv.take(a as int));
            assert(iv.take(a + 1).last() == tv);
            assert(iv.take(a + 1).len() - 1 == a as int);
            assert(flat@.map_values(|p: (usize, String)| (p.0 as int, p.1@)) =~~= spec_tag_pairs(
                iv.take(a + 1),
            ));
        }
        a = a + 1;
    }
    proof {
        assert(iv.take(iv.len() as int) =~~= iv);
    }
    let ghost fv = flat@.map_values(|p: (usize, String)| (p.0 as int, p.1@));
    // Seed the given keys, then fold every application onto its tag.
    let mut out_keys: Vec<String> = Vec::new();
    let mut out_lists: Vec<Vec<usize>> = Vec::new();
    let mut s: usize = 0;
    while s < keys.len()
        invariant
            0 <= s <= keys@.len(),
            forall|i: int, j: int| 0 <= i < j < keys@.len() ==> keys@[i]@ != keys@[j]@,
            out_keys@.len() == s,
            out_lists@.len() == s,
            forall|q: int| 0 <= q < s ==> #[trigger] out_keys@[q]@ == keys@[q]@,
            forall|q: int| 0 <= q < s ==> #[trigger] out_lists@[q]@ == Seq::<usize>::empty(),
        decreases keys@.len() - s,
    {
        out_keys.push(keys[s].clone());
        out_lists.push(Vec::new());
        proof {
            assert(out_lists@[out_lists@.len() - 1]@ =~~= Seq::<usize>::empty());
        }
        s = s + 1;
    }
    let mut idx: usize = 0;
    proof {
        assert(fv.take(0) =~~= Seq::<(int, Seq<char>)>::empty());
        assert forall|k: int| 0 <= k < keys@.len() implies covered(
            out_keys@,
            #[trigger] keys@[k]@,
        ) by {
            lemma_covered(out_keys@, k, keys@[k]@);
        }
        assert forall|q: int| 0 <= q < out_keys@.len() implies (#[trigger] out_lists@[q])@
            .map_values(|x: usize| x as int) == spec_postings(fv.take(0), out_keys@[q]@) by {
            assert(out_lists@[q]@.map_values(|x: usize| x as int) =~~= Seq::<int>::empty());
        }
    }
    while idx < flat.len()
        invariant
            0 <= idx <= flat@.len(),
            fv == flat@.map_values(|p: (usize, String)| (p.0 as int, p.1@)),
            fv.len() == flat@.len(),
            out_keys@.len() == out_lists@.len(),
            forall|i: int, j: int|
                0 <= i < j < out_keys@.len() ==> out_keys@[i]@ != out_keys@[j]@,
            forall|q: int|
                0 <= q < out_keys@.len() ==> (#[trigger] out_lists@[q])@.map_values(
                    |x: usize| x as int,
                ) == spec_postings(fv.take(idx as int), out_keys@[q]@),
            forall|k: int| 0 <= k < keys@.len() ==> covered(out_keys@, #[trigger] keys@[k]@),
            forall|k: int| 0 <= k < idx ==> covered(out_keys@, #[trigger] fv[k].1),
        decreases flat@.len() - idx,
    {
        let ghost pre_keys = out_keys@;
        let ghost pre_lists = out_lists@;
        let i = flat[idx].0;
        proof {
            assert(fv[idx as int] == (flat@[idx as int].0 as int, flat@[idx as int].1@));
            assert(fv.take(idx + 1).drop_last() =~~= fv.take(idx as int));
            assert(fv.take(idx + 1).last() == fv[idx as int]);
        }
        match crate::tags::find_tag_key(&out_keys, flat[idx].1.as_str()) {
            Some(j) => {
                let mut l = out_lists[j].clone();
                l.push(i);
                out_lists[j] = l;
                proof {
                    assert(out_keys@[j as int]@ == fv[idx as int].1);
                    assert(out_lists@[j as int]@.map_values(|x: usize| x as int)
                        =~~= pre_lists[j as int]@.map_values(|x: usize| x as int).push(
                        fv[idx as int].0,
                    ));
                    assert forall|q: int| 0 <= q < out_keys@.len() implies
                        (#[trigger] out_lists@[q])@.map_values(|x: usize| x as int)
                        == spec_postings(fv.take(idx + 1), out_keys@[q]@) by {
                        if q != j {
                            assert(out_lists@[q] == pre_lists[q]);
                            assert(out_keys@[q]@ != fv[idx as int].1);
                        }
                    }
                    assert forall|k: int| 0 <= k < idx + 1 implies covered(
                        out_keys@,
                        #[trigger] fv[k].1,
                    ) by {
                        if k == idx {
                            lemma_covered(out_keys@, j as int, fv[k].1);
                        }
                    }
                }
            },
            None => {
                proof {
                    if spec_names_tag(fv.take(idx as int), fv[idx as int].1) {
                        let w = names_tag_witness(fv.take(idx as int), fv[idx as int].1);
                        assert(covered(pre_keys, fv[w].1));
                        let z = covered_witness(pre_keys, fv[w].1);
                        assert(false);
                    }
                    lemma_postings_unnamed(fv.take(idx as int), fv[idx as int].1);
                }
                out_keys.push(flat[idx].1.clone());
                let mut l: Vec<usize> = Vec::new();
                l.push(i);
                out_lists.push(l);
                proof {
                    let last: int = out_keys@.len() - 1;
                    assert(out_keys@[last]@ == fv[idx as int].1);
                    assert forall|i2: int, j2: int|
                        0 <= i2 < j2 < out_keys@.len() implies out_keys@[i2]@
                        != out_keys@[j2]@ by {
                        if j2 == last && out_keys@[i2]@ == out_keys@[j2]@ {
                            lemma_covered(pre_keys, i2, fv[idx as int].1);
                            let w = covered_witness(pre_keys, fv[idx as int].1);
                            assert(false);
                        }
                    }
                    assert forall|q: int| 0 <= q < out_keys@.len() implies
                        (#[trigger] out_lists@[q])@.map_values(|x: usize| x as int)
                        == spec_postings(fv.take(idx + 1), out_keys@[q]@) by {
                        if q < last {
                            assert(out_lists@[q] == pre_lists[q]);
                            assert(out_keys@[q] == pre_keys[q]);
                            if out_keys@[q]@ == fv[idx as int].1 {
                                lemma_covered(pre_keys, q, fv[idx as int].1);
                                let w = covered_witness(pre_keys, fv[idx as int].1);
                                assert(false);
                            }
                        } else {
                            assert(out_lists@[q]@.map_values(|x: usize| x as int) =~~= Seq::<
                                int,
                            >::empty().push(fv[idx as int].0));
                        }
                    }
                    assert forall|k: int| 0 <= k < keys@.len() implies covered(
                        out_keys@,
                        #[trigger] keys@[k]@,
                    ) by {
                        let q0 = covered_witness(pre_keys, keys@[k]@);
                        lemma_covered(out_keys@, q0, keys@[k]@);
                    }
                    assert forall|k: int| 0 <= k < idx + 1 implies covered(
                        out_keys@,
                        #[trigger] fv[k].1,
                    ) by {
                        if k == idx {
                            lemma_covered(out_keys@, last, fv[k].1);
                        } else {
                            let q0 = covered_witness(pre_keys, fv[k].1);
                            lemma_covered(out_keys@, q0, fv[k].1);
                        }
                    }
                }
            },
        }
        idx = idx + 1;
    }
    proof {
        assert(fv.take(flat@.len() as int) =~~= fv);
    }
    // Pair the keys with their postings.
    let mut r: Vec<(String, Vec<usize>)> = Vec::new();
    let mut j: usize = 0;
    while j < out_keys.len()
        invariant
            0 <= j <= out_keys@.len(),
            out_keys@.len() == out_lists@.len(),
            forall|i2: int, j2: int|
                0 <= i2 < j2 < out_keys@.len() ==> out_keys@[i2]@ != out_keys@[j2]@,
            forall|q: int|
                0 <= q < out_keys@.len() ==> (#[trigger] out_lists@[q])@.map_values(
                    |x: usize| x as int,
                ) == spec_postings(fv, out_keys@[q]@),
            forall|k: int| 0 <= k < keys@.len() ==> covered(out_keys@, #[trigger] keys@[k]@),
            forall|k: int| 0 <= k < fv.len() ==> covered(out_keys@, #[trigger] fv[k].1),
            r@.len() == j,
            forall|q: int|
                0 <= q < j ==> (#[trigger] r@[q].0 == out_keys@[q] && r@[q].1@
                    == out_lists@[q]@),
        decreases out_keys@.len() - j,
    {
        let key_copy = out_keys[j].clone();
        let list_copy = crate::util::copy_indices(&out_lists[j]);
        proof {
            assert(key_copy == out_keys@[j as int]);
            assert(list_copy@ == out_lists@[j as int]@);
        }
        r.push((key_copy, list_copy));
        proof {
            assert(r@[j as int].0 == out_keys@[j as int]);
            assert(r@[j as int].1@ == out_lists@[j as int]@);
        }
        j = j + 1;
    }
    proof {
        let ghost outm = r@.map_values(|p: (String, Vec<usize>)| p.0);
        assert(outm.len() == out_keys@.len());
        assert forall|k: int| 0 <= k < keys@.len() implies covered(
            outm,
            #[trigger] keys@[k]@,
        ) by {
            let q0 = covered_witness(out_keys@, keys@[k]@);
            assert(outm[q0] == out_keys@[q0]);
            lemma_covered(outm, q0, keys@[k]@);
        }
        assert forall|k: int| 0 <= k < fv.len() implies covered(outm, #[trigger] fv[k].1) by {
            let q0 = covered_witness(out_keys@, fv[k].1);
            assert(outm[q0] == out_keys@[q0]);
            lemma_covered(outm, q0, fv[k].1);
        }
        assert forall|i2: int, j2: int| 0 <= i2 < j2 < r@.len() implies r@[i2].0@
            != r@[j2].0@ by {
            assert(r@[i2].0 == out_keys@[i2] && r@[j2].0 == out_keys@[j2]);
        }
    }
    r
}

} // verus!
