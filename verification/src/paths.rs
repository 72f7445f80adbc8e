//! The scoped path join: the only way untrusted path text (tar
//! entries, nested install paths) becomes a real path. The result is
//! always the root followed by clean components — never outside the
//! root. Symbolic links are expanded as if the root were the
//! filesystem root, through a caller-supplied link table, with a hard
//! cap on expansions; the stricter entry join used for archive
//! entries rejects any attempt to step above the root.

use vstd::prelude::*;
use vstd::string::*;
use crate::kmap::KeyMap;
use crate::specifier::{
    first_index_of_char, lemma_first_index_none, lemma_first_index_unique,
};
use crate::strutil::{find_char, str_eq};

verus! {

/// A failure of the scoped join.
#[derive(Debug)]
pub enum PathError {
    /// The symlink expansion budget was exhausted.
    TooManySymlinks,
    /// An entry tried to step above the root.
    PathEscape { entry: String },
}

impl PathError {
    /// Renders the report text for this failure.
    pub fn message(&self) -> (r: String)
        ensures
            match self {
                PathError::TooManySymlinks => r@ == "Too many levels of symlinks"@,
                PathError::PathEscape { entry } => r@ == "Path escapes its root: "@ + entry@,
            },
    {
        match self {
            PathError::TooManySymlinks => String::from_str("Too many levels of symlinks"),
            PathError::PathEscape { entry } => {
                let mut m = String::from_str("Path escapes its root: ");
                m.append(entry.as_str());
                proof {
                    assert(m@ =~= "Path escapes its root: "@ + entry@);
                }
                m
            },
        }
    }
}

/// The segments of a path text, split at every `/`.
pub open spec fn split_slash(s: Seq<char>) -> Seq<Seq<char>>
    decreases s.len(),
{
    let i = first_index_of_char(s, '/');
    if i < 0 || i >= s.len() {
        seq![s]
    } else {
        seq![s.take(i)] + split_slash(s.skip(i + 1))
    }
}

/// Splits a path text at every `/`.
pub fn split_path(s: &str) -> (r: Vec<String>)
    ensures
        r@.map_values(|x: String| x@) == split_slash(s@),
    decreases s@.len(),
{
    match find_char(s, '/') {
        None => {
            proof {
                lemma_first_index_none(s@, '/');
            }
            let mut r: Vec<String> = Vec::new();
            r.push(s.to_owned());
            proof {
                assert(r@.map_values(|x: String| x@) =~= split_slash(s@));
            }
            r
        },
        Some(i) => {
            proof {
                lemma_first_index_unique(s@, '/', i as int);
            }
            let len = s.unicode_len();
            let head = s.substring_char(0, i);
            let rest = s.substring_char(i + 1, len);
            proof {
                assert(head@ =~= s@.take(i as int));
                assert(rest@ =~= s@.skip(i as int + 1));
            }
            let mut tail = split_path(rest);
            let mut r: Vec<String> = Vec::new();
            r.push(head.to_owned());
            r.append(&mut tail);
            proof {
                assert(r@.map_values(|x: String| x@) =~= split_slash(s@));
            }
            r
        },
    }
}

/// Whether a segment is free of separators.
pub open spec fn no_slash(seg: Seq<char>) -> bool {
    forall|c: int| 0 <= c < seg.len() ==> seg[c] != '/'
}

/// Splitting at separators leaves no separator inside any segment.
pub proof fn lemma_split_no_slash(s: Seq<char>)
    ensures
        forall|j: int|
            0 <= j < split_slash(s).len() ==> no_slash(#[trigger] split_slash(s)[j]),
    decreases s.len(),
{
    crate::specifier::lemma_first_index_char(s, '/');
    let i = first_index_of_char(s, '/');
    if i < 0 || i >= s.len() {
        assert forall|j: int|
            0 <= j < split_slash(s).len() implies no_slash(#[trigger] split_slash(s)[j]) by {
            assert(split_slash(s)[j] == s);
        }
    } else {
        lemma_split_no_slash(s.skip(i + 1));
        assert forall|j: int|
            0 <= j < split_slash(s).len() implies no_slash(#[trigger] split_slash(s)[j]) by {
            if j == 0 {
                assert(split_slash(s)[0] == s.take(i));
                assert forall|c: int| 0 <= c < s.take(i).len() implies s.take(i)[c] != '/' by {
                    assert(s.take(i)[c] == s[c]);
                }
            } else {
                assert(split_slash(s)[j] == split_slash(s.skip(i + 1))[j - 1]);
            }
        }
    }
}

/// A component that may stand under the root: nonempty, not a dot
/// component, and free of separators.
pub open spec fn clean_seg(seg: Seq<char>) -> bool {
    seg.len() > 0 && seg != "."@ && seg != ".."@ && no_slash(seg)
}

/// The root with the segments appended, `/`-separated.
pub open spec fn joined_under(root: Seq<char>, segs: Seq<Seq<char>>) -> Seq<char>
    decreases segs.len(),
{
    if segs.len() == 0 {
        root
    } else {
        joined_under(root, segs.drop_last()) + seq!['/'] + segs.last()
    }
}

/// Whatever the segments, the joined path begins with the root, and
/// anything after it begins with a separator.
pub proof fn lemma_joined_under_prefix(root: Seq<char>, segs: Seq<Seq<char>>)
    ensures
        joined_under(root, segs).len() >= root.len(),
        joined_under(root, segs).subrange(0, root.len() as int) == root,
        joined_under(root, segs).len() > root.len() ==> joined_under(root, segs)[root.len() as int]
            == '/',
    decreases segs.len(),
{
    if segs.len() == 0 {
        assert(joined_under(root, segs).subrange(0, root.len() as int) =~= root);
    } else {
        lemma_joined_under_prefix(root, segs.drop_last());
        let prev = joined_under(root, segs.drop_last());
        let whole = joined_under(root, segs);
        assert(whole.subrange(0, root.len() as int) =~= prev.subrange(0, root.len() as int));
        if prev.len() > root.len() {
        } else {
            assert(prev.len() == root.len());
            assert(whole[root.len() as int] == '/');
        }
    }
}

/// Joins the root with the segments.
pub fn path_join(root: &str, segs: &Vec<String>) -> (r: String)
    ensures
        r@ == joined_under(root@, segs@.map_values(|x: String| x@)),
{
    let ghost sv = segs@.map_values(|x: String| x@);
    let mut r = root.to_owned();
    let mut i: usize = 0;
    proof {
        assert(sv.take(0) =~= Seq::<Seq<char>>::empty());
    }
    while i < segs.len()
        invariant
            sv == segs@.map_values(|x: String| x@),
            i <= segs@.len(),
            r@ == joined_under(root@, sv.take(i as int)),
        decreases segs@.len() - i,
    {
        r.append("/");
        r.append(segs[i].as_str());
        proof {
            reveal_strlit("/");
            assert(sv.take(i as int + 1).drop_last() =~= sv.take(i as int));
            assert(sv.take(i as int + 1).last() == sv[i as int]);
            assert(r@ =~= joined_under(root@, sv.take(i as int + 1)));
        }
        i += 1;
    }
    proof {
        assert(sv.take(segs@.len() as int) =~= sv);
    }
    r
}

/// Where the scoped walk lands: empty and dot segments are ignored, a
/// parent step pops one segment and is a no-op at the root, and any
/// other segment descends.
pub open spec fn spec_scoped_walk(segs: Seq<Seq<char>>) -> Seq<Seq<char>>
    decreases segs.len(),
{
    if segs.len() == 0 {
        Seq::empty()
    } else {
        let prev = spec_scoped_walk(segs.drop_last());
        let s = segs.last();
        if s.len() == 0 || s == "."@ {
            prev
        } else if s == ".."@ {
            if prev.len() == 0 {
                prev
            } else {
                prev.drop_last()
            }
        } else {
            prev.push(s)
        }
    }
}

/// Where the strict entry walk lands: as the scoped walk, except that
/// a parent step at the root is an escape and fails.
pub open spec fn spec_entry_walk(segs: Seq<Seq<char>>) -> Option<Seq<Seq<char>>>
    decreases segs.len(),
{
    if segs.len() == 0 {
        Some(Seq::empty())
    } else {
        match spec_entry_walk(segs.drop_last()) {
            None => None,
            Some(prev) => {
                let s = segs.last();
                if s.len() == 0 || s == "."@ {
                    Some(prev)
                } else if s == ".."@ {
                    if prev.len() == 0 {
                        None
                    } else {
                        Some(prev.drop_last())
                    }
                } else {
                    Some(prev.push(s))
                }
            },
        }
    }
}

/// Where the scoped walk with link expansion lands: segments are
/// processed as in the plain walk, but a normal segment whose full
/// path is bound in the link table restarts the walk on the spliced
/// target, spending one unit of budget; `None` means the budget ran
/// out — the only way the walk can fail.
pub open spec fn spec_link_walk(
    links: Seq<(Seq<char>, Seq<char>)>,
    root: Seq<char>,
    segs: Seq<Seq<char>>,
    i: int,
    subs: Seq<Seq<char>>,
    fuel: nat,
) -> Option<Seq<Seq<char>>>
    decreases fuel, segs.len() - i,
    when 0 <= i <= segs.len()
{
    if i >= segs.len() {
        Some(subs)
    } else {
        let s = segs[i];
        if s.len() == 0 || s == "."@ {
            spec_link_walk(links, root, segs, i + 1, subs, fuel)
        } else if s == ".."@ {
            spec_link_walk(
                links,
                root,
                segs,
                i + 1,
                if subs.len() == 0 {
                    subs
                } else {
                    subs.drop_last()
                },
                fuel,
            )
        } else {
            match crate::plan::text_map_get(links, joined_under(root, subs) + seq!['/'] + s) {
                None => spec_link_walk(links, root, segs, i + 1, subs.push(s), fuel),
                Some(target) => if fuel == 0 {
                    None
                } else {
                    spec_link_walk(
                        links,
                        root,
                        (if target.len() > 0 && target[0] == '/' {
                            split_slash(target)
                        } else {
                            subs + split_slash(target)
                        }) + segs.skip(i + 1),
                        0,
                        Seq::empty(),
                        (fuel - 1) as nat,
                    )
                },
            }
        }
    }
}

fn walk(
    root: &str,
    segs: Vec<String>,
    links: &KeyMap<String>,
    nlinks: u32,
) -> (r: Result<String, PathError>)
    requires
        nlinks <= 255,
        forall|j: int| 0 <= j < segs@.len() ==> no_slash((#[trigger] segs@[j])@),
    ensures
        links@.len() == 0 ==> r is Ok,
        match r {
            Ok(p) => (exists|out: Seq<Seq<char>>|
                (forall|j: int| 0 <= j < out.len() ==> clean_seg(#[trigger] out[j])) && p@
                    == joined_under(root@, out)) && (links@.len() == 0 ==> p@ == joined_under(
                root@,
                spec_scoped_walk(segs@.map_values(|x: String| x@)),
            )) && (match spec_link_walk(
                links@,
                root@,
                segs@.map_values(|x: String| x@),
                0,
                Seq::empty(),
                (255 - nlinks) as nat,
            ) {
                Some(out2) => p@ == joined_under(root@, out2),
                None => false,
            }),
            Err(e) => e is TooManySymlinks && links@.len() > 0 && spec_link_walk(
                links@,
                root@,
                segs@.map_values(|x: String| x@),
                0,
                Seq::empty(),
                (255 - nlinks) as nat,
            ) is None,
        },
    decreases 256 - nlinks,
{
    let ghost segv = segs@.map_values(|x: String| x@);
    let ghost fuelv = (255 - nlinks) as nat;
    let mut subs: Vec<String> = Vec::new();
    let mut i: usize = 0;
    proof {
        assert(segv.take(0) =~= Seq::<Seq<char>>::empty());
        assert(subs@.map_values(|x: String| x@) =~= spec_scoped_walk(segv.take(0)));
        assert(subs@.map_values(|x: String| x@) =~= Seq::<Seq<char>>::empty());
    }
    while i < segs.len()
        invariant
            nlinks <= 255,
            segv == segs@.map_values(|x: String| x@),
            i <= segs@.len(),
            forall|j: int| 0 <= j < segs@.len() ==> no_slash((#[trigger] segs@[j])@),
            forall|j: int| 0 <= j < subs@.len() ==> clean_seg((#[trigger] subs@[j])@),
            links@.len() == 0 ==> subs@.map_values(|x: String| x@) == spec_scoped_walk(
                segv.take(i as int),
            ),
            fuelv == (255 - nlinks) as nat,
            spec_link_walk(links@, root@, segv, 0, Seq::empty(), fuelv) == spec_link_walk(
                links@,
                root@,
                segv,
                i as int,
                subs@.map_values(|x: String| x@),
                fuelv,
            ),
        decreases segs@.len() - i,
    {
        let seg = &segs[i];
        let ghost presubs = subs@.map_values(|x: String| x@);
        proof {
            assert(segv.take(i as int + 1).drop_last() =~= segv.take(i as int));
            assert(segv.take(i as int + 1).last() == segv[i as int]);
            reveal_strlit(".");
            reveal_strlit("..");
        }
        if seg.as_str().unicode_len() == 0 || str_eq(seg.as_str(), ".") {
            proof {
                assert(spec_link_walk(links@, root@, segv, i as int, presubs, fuelv)
                    == spec_link_walk(links@, root@, segv, i as int + 1, presubs, fuelv));
            }
        } else if str_eq(seg.as_str(), "..") {
            if subs.len() > 0 {
                subs.pop();
                proof {
                    assert(subs@.map_values(|x: String| x@) =~= presubs.drop_last());
                }
            }
            proof {
                assert(spec_link_walk(links@, root@, segv, i as int, presubs, fuelv)
                    == spec_link_walk(
                    links@,
                    root@,
                    segv,
                    i as int + 1,
                    subs@.map_values(|x: String| x@),
                    fuelv,
                ));
            }
        } else {
            let key = {
                let base = path_join(root, &subs);
                let mut k = base;
                k.append("/");
                k.append(seg.as_str());
                k
            };
            proof {
                reveal_strlit("/");
                assert(key@ =~= joined_under(root@, presubs) + seq!['/'] + segv[i as int]);
                assert(links.keys() =~= links@.map_values(
                    |e2: (Seq<char>, Seq<char>)| e2.0,
                ));
            }
            let hit = links.get(key.as_str());
            match hit {
                None => {
                    proof {
                        crate::kmap::lemma_key_index(links.keys(), key@);
                        assert(crate::plan::text_map_get(links@, key@) is None);
                        assert(spec_link_walk(links@, root@, segv, i as int, presubs, fuelv)
                            == spec_link_walk(
                            links@,
                            root@,
                            segv,
                            i as int + 1,
                            presubs.push(segv[i as int]),
                            fuelv,
                        ));
                    }
                    subs.push(seg.clone());
                    proof {
                        assert(subs@.map_values(|x: String| x@) =~= presubs.push(segv[i as int]));
                        assert(segv[i as int] == segs@[i as int]@);
                        assert(clean_seg(segv[i as int]));
                    }
                },
                Some(target) => {
                    proof {
                        crate::kmap::lemma_key_index(links.keys(), key@);
                        assert(links@.len() > 0);
                        let kj = crate::kmap::key_index(links.keys(), key@);
                        assert(links@[kj].1 == target@);
                        assert(crate::plan::text_map_get(links@, key@) == Some(target@));
                    }
                    if nlinks >= 255 {
                        proof {
                            assert(fuelv == 0);
                            assert(spec_link_walk(links@, root@, segv, i as int, presubs, fuelv)
                                is None);
                        }
                        return Err(PathError::TooManySymlinks);
                    }
                    let tsegs = split_path(target.as_str());
                    proof {
                        lemma_split_no_slash(target@);
                    }
                    let mut next: Vec<String> = Vec::new();
                    let starts_abs = target.as_str().unicode_len() > 0 && target.as_str().get_char(
                        0,
                    ) == '/';
                    let ghost pre_len: int = if starts_abs {
                        0
                    } else {
                        subs@.len() as int
                    };
                    if !starts_abs {
                        let mut si: usize = 0;
                        while si < subs.len()
                            invariant
                                si <= subs@.len(),
                                next@.len() == si,
                                forall|j: int| 0 <= j < si ==> (#[trigger] next@[j])@ == subs@[j]@,
                                forall|j: int|
                                    0 <= j < subs@.len() ==> clean_seg((#[trigger] subs@[j])@),
                                forall|j: int|
                                    0 <= j < next@.len() ==> no_slash((#[trigger] next@[j])@),
                            decreases subs@.len() - si,
                        {
                            next.push(subs[si].clone());
                            si += 1;
                        }
                    }
                    let mut ti: usize = 0;
                    while ti < tsegs.len()
                        invariant
                            ti <= tsegs@.len(),
                            next@.len() == pre_len + ti,
                            pre_len == 0 || pre_len == subs@.len(),
                            forall|j: int|
                                0 <= j < pre_len ==> (#[trigger] next@[j])@ == subs@[j]@,
                            forall|j: int|
                                0 <= j < ti ==> (#[trigger] next@[pre_len + j])@ == split_slash(
                                    target@,
                                )[j],
                            tsegs@.map_values(|x: String| x@) == split_slash(target@),
                            forall|j: int|
                                0 <= j < split_slash(target@).len() ==> no_slash(
                                    #[trigger] split_slash(target@)[j],
                                ),
                            forall|j: int|
                                0 <= j < next@.len() ==> no_slash((#[trigger] next@[j])@),
                        decreases tsegs@.len() - ti,
                    {
                        proof {
                            assert(tsegs@[ti as int]@ == split_slash(target@)[ti as int]);
                        }
                        next.push(tsegs[ti].clone());
                        ti += 1;
                    }
                    let ghost mid_len: int = pre_len + tsegs@.len();
                    let mut ri: usize = i + 1;
                    while ri < segs.len()
                        invariant
                            ri >= i + 1,
                            i < segs@.len(),
                            ri <= segs@.len(),
                            segv == segs@.map_values(|x: String| x@),
                            mid_len == pre_len + tsegs@.len(),
                            pre_len == 0 || pre_len == subs@.len(),
                            next@.len() == mid_len + (ri - i - 1),
                            tsegs@.map_values(|x: String| x@) == split_slash(target@),
                            forall|j: int|
                                0 <= j < pre_len ==> (#[trigger] next@[j])@ == subs@[j]@,
                            forall|j: int|
                                0 <= j < tsegs@.len() ==> (#[trigger] next@[pre_len + j])@
                                    == split_slash(target@)[j],
                            forall|j: int|
                                0 <= j < ri - i - 1 ==> (#[trigger] next@[mid_len + j])@
                                    == segv[i + 1 + j],
                            forall|j: int|
                                0 <= j < segs@.len() ==> no_slash((#[trigger] segs@[j])@),
                            forall|j: int|
                                0 <= j < next@.len() ==> no_slash((#[trigger] next@[j])@),
                        decreases segs@.len() - ri,
                    {
                        proof {
                            assert(segs@[ri as int]@ == segv[ri as int]);
                        }
                        next.push(segs[ri].clone());
                        ri += 1;
                    }
                    proof {
                        let tv = split_slash(target@);
                        let newsegs = (if target@.len() > 0 && target@[0] == '/' {
                            tv
                        } else {
                            presubs + tv
                        }) + segv.skip(i as int + 1);
                        assert(starts_abs == (target@.len() > 0 && target@[0] == '/'));
                        assert(tsegs@.map_values(|x: String| x@).len() == tv.len());
                        assert forall|j: int|
                            0 <= j < newsegs.len() implies next@.map_values(|x: String| x@)[j]
                            == newsegs[j] by {
                            assert(next@.map_values(|x: String| x@)[j] == next@[j]@);
                            if j < pre_len {
                                assert(next@[j]@ == subs@[j]@);
                                assert(presubs[j] == subs@[j]@);
                            } else if j < mid_len {
                                assert(next@[pre_len + (j - pre_len)]@ == tv[j - pre_len]);
                            } else {
                                assert(next@[mid_len + (j - mid_len)]@ == segv[i + 1 + (j
                                    - mid_len)]);
                                assert(segv.skip(i as int + 1)[j - mid_len] == segv[i + 1 + (j
                                    - mid_len)]);
                            }
                        }
                        assert(next@.map_values(|x: String| x@) =~= newsegs);
                        assert(spec_link_walk(links@, root@, segv, i as int, presubs, fuelv)
                            == spec_link_walk(
                            links@,
                            root@,
                            newsegs,
                            0,
                            Seq::empty(),
                            (fuelv - 1) as nat,
                        ));
                        assert((255 - (nlinks + 1)) as nat == (fuelv - 1) as nat);
                    }
                    return walk(root, next, links, nlinks + 1);
                },
            }
        }
        i += 1;
    }
    let result = path_join(root, &subs);
    proof {
        let out = subs@.map_values(|x: String| x@);
        assert forall|j: int| 0 <= j < out.len() implies clean_seg(#[trigger] out[j]) by {
            assert(out[j] == subs@[j]@);
        }
        assert(result@ == joined_under(root@, out));
        assert(segv.take(segs@.len() as int) =~= segv);
    }
    Ok(result)
}

/// Safely joins untrusted path text under a root: the result is the
/// root followed by clean components, with dot and parent steps
/// resolved (a parent step at the root is a no-op) and symlinks from
/// `links` expanded as if the root were the filesystem root. The
/// result is exactly where `spec_link_walk` lands with a budget of
/// 255 expansions, and the join fails exactly when that budget runs
/// out — which needs a link to follow, so with no links configured it
/// always succeeds with the plain normalized walk.
pub fn scoped_join(root: &str, unsafe_path: &str, links: &KeyMap<String>) -> (r: Result<
    String,
    PathError,
>)
    ensures
        links@.len() == 0 ==> (r matches Ok(p) && p@ == joined_under(
            root@,
            spec_scoped_walk(split_slash(unsafe_path@)),
        )),
        match r {
            Ok(p) => (exists|out: Seq<Seq<char>>|
                (forall|j: int| 0 <= j < out.len() ==> clean_seg(#[trigger] out[j])) && p@
                    == joined_under(root@, out)) && (match spec_link_walk(
                links@,
                root@,
                split_slash(unsafe_path@),
                0,
                Seq::empty(),
                255,
            ) {
                Some(out2) => p@ == joined_under(root@, out2),
                None => false,
            }),
            Err(e) => e is TooManySymlinks && links@.len() > 0 && spec_link_walk(
                links@,
                root@,
                split_slash(unsafe_path@),
                0,
                Seq::empty(),
                255,
            ) is None,
        },
{
    let segs = split_path(unsafe_path);
    proof {
        lemma_split_no_slash(unsafe_path@);
        assert forall|j: int|
            0 <= j < segs@.len() implies no_slash((#[trigger] segs@[j])@) by {
            assert(segs@[j]@ == split_slash(unsafe_path@)[j]);
        }
    }
    walk(root, segs, links, 0)
}

/// Strictly joins an archive entry's path under a root: as
/// `scoped_join` without link handling, but an entry that tries to
/// step above the root is rejected as a path escape.
pub fn checked_entry_join(root: &str, entry: &str) -> (r: Result<String, PathError>)
    ensures
        match r {
            Ok(p) => spec_entry_walk(split_slash(entry@)) matches Some(out) && p@
                == joined_under(root@, out),
            Err(e) => e matches PathError::PathEscape { entry: e2 } && e2@ == entry@
                && spec_entry_walk(split_slash(entry@)) is None,
        },
{
    let segs = split_path(entry);
    let ghost segv = segs@.map_values(|x: String| x@);
    proof {
        assert(segv == split_slash(entry@));
    }
    let mut subs: Vec<String> = Vec::new();
    let mut i: usize = 0;
    proof {
        assert(segv.take(0) =~= Seq::<Seq<char>>::empty());
        assert(spec_entry_walk(segv.take(0)) == Some(Seq::<Seq<char>>::empty()));
        assert(subs@.map_values(|x: String| x@) =~= Seq::<Seq<char>>::empty());
    }
    while i < segs.len()
        invariant
            segv == segs@.map_values(|x: String| x@),
            segv == split_slash(entry@),
            i <= segs@.len(),
            spec_entry_walk(segv.take(i as int)) == Some(
                subs@.map_values(|x: String| x@),
            ),
        decreases segs@.len() - i,
    {
        let seg = &segs[i];
        let ghost presubs = subs@.map_values(|x: String| x@);
        proof {
            assert(segv.take(i as int + 1).drop_last() =~= segv.take(i as int));
            assert(segv.take(i as int + 1).last() == segv[i as int]);
            reveal_strlit(".");
            reveal_strlit("..");
        }
        if seg.as_str().unicode_len() == 0 || str_eq(seg.as_str(), ".") {
            // ignored
        } else if str_eq(seg.as_str(), "..") {
            if subs.len() == 0 {
                proof {
                    assert(spec_entry_walk(segv.take(i as int + 1)) is None);
                    lemma_entry_walk_none(segv, i as int + 1);
                }
                return Err(PathError::PathEscape { entry: entry.to_owned() });
            }
            subs.pop();
            proof {
                assert(subs@.map_values(|x: String| x@) =~= presubs.drop_last());
            }
        } else {
            subs.push(seg.clone());
            proof {
                assert(subs@.map_values(|x: String| x@) =~= presubs.push(segv[i as int]));
            }
        }
        i += 1;
    }
    let result = path_join(root, &subs);
    proof {
        assert(segv.take(segs@.len() as int) =~= segv);
    }
    Ok(result)
}

/// Once the entry walk fails on a prefix, it fails on the whole path.
proof fn lemma_entry_walk_none(segs: Seq<Seq<char>>, i: int)
    requires
        0 <= i <= segs.len(),
        spec_entry_walk(segs.take(i)) is None,
    ensures
        spec_entry_walk(segs) is None,
    decreases segs.len() - i,
{
    if i < segs.len() {
        assert(segs.take(i + 1).drop_last() =~= segs.take(i));
        lemma_entry_walk_none(segs, i + 1);
    } else {
        assert(segs.take(i) =~= segs);
    }
}

/// The nested install path for a package: each ancestor, a
/// `node_modules` hop, and finally the package's local name.
pub open spec fn install_path_text(prefix: Seq<Seq<char>>, name: Seq<char>) -> Seq<char>
    decreases prefix.len(),
{
    if prefix.len() == 0 {
        name
    } else {
        prefix[0] + "/node_modules/"@ + install_path_text(prefix.skip(1), name)
    }
}

/// Renders the nested install path for a package under its ancestor
/// chain.
pub fn install_target_path(prefix: &Vec<String>, name: &str) -> (r: String)
    ensures
        r@ == install_path_text(prefix@.map_values(|x: String| x@), name@),
{
    let r = install_target_from(prefix, 0, name);
    proof {
        assert(prefix@.map_values(|x: String| x@).skip(0) =~= prefix@.map_values(
            |x: String| x@,
        ));
    }
    r
}

fn install_target_from(prefix: &Vec<String>, from: usize, name: &str) -> (r: String)
    requires
        from <= prefix@.len(),
    ensures
        r@ == install_path_text(prefix@.map_values(|x: String| x@).skip(from as int), name@),
    decreases prefix@.len() - from,
{
    let ghost pv = prefix@.map_values(|x: String| x@);
    if from == prefix.len() {
        proof {
            assert(pv.skip(from as int) =~= Seq::<Seq<char>>::empty());
        }
        name.to_owned()
    } else {
        let mut r = prefix[from].clone();
        r.append("/node_modules/");
        let rest = install_target_from(prefix, from + 1, name);
        r.append(rest.as_str());
        proof {
            assert(pv.skip(from as int)[0] == pv[from as int]);
            assert(pv.skip(from as int).skip(1) =~= pv.skip(from as int + 1));
            assert(r@ =~= install_path_text(pv.skip(from as int), name@));
        }
        r
    }
}

} // verus!
