use vstd::prelude::*;
use vstd::string::StringExecFns;
use vstd::string::StrSliceExecFns;

verus! {

/// One segment of a registered path pattern: literal text, a named
/// parameter (written `:name`), or the terminal wildcard (written `*`).
pub enum Resource {
    Static(String),
    Param(String),
    Wildcard,
}

/// The mathematical value of a [`Resource`].
pub enum SpecResource {
    Static(Seq<char>),
    Param(Seq<char>),
    Wildcard,
}

impl View for Resource {
    type V = SpecResource;

    open spec fn view(&self) -> SpecResource {
        match self {
            Resource::Static(s) => SpecResource::Static(s@),
            Resource::Param(s) => SpecResource::Param(s@),
            Resource::Wildcard => SpecResource::Wildcard,
        }
    }
}

impl Resource {
    /// A structural copy; the router keeps one when a pattern has to be
    /// replayed into another tree.
    pub fn duplicate(&self) -> (r: Resource)
        ensures
            r@ == self@,
    {
        match self {
            Resource::Static(s) => Resource::Static(String::from_str(s.as_str())),
            Resource::Param(s) => Resource::Param(String::from_str(s.as_str())),
            Resource::Wildcard => Resource::Wildcard,
        }
    }
}

/// The views of a parsed pattern, segment by segment.
pub open spec fn pattern_view(pat: Seq<Resource>) -> Seq<SpecResource> {
    pat.map_values(|r: Resource| r@)
}

/// Splitting a path on `/`, dropping empty tokens: the tail of the split
/// from position `i`, with `cur` the token being read and `acc` the tokens
/// already read.
pub open spec fn split_accum(s: Seq<char>, i: int, cur: Seq<char>, acc: Seq<Seq<char>>) -> Seq<
    Seq<char>,
>
    decreases s.len() - i,
{
    if i < 0 || i >= s.len() {
        if cur.len() > 0 {
            acc.push(cur)
        } else {
            acc
        }
    } else if s[i] == '/' {
        split_accum(
            s,
            i + 1,
            Seq::empty(),
            if cur.len() > 0 {
                acc.push(cur)
            } else {
                acc
            },
        )
    } else {
        split_accum(s, i + 1, cur.push(s[i]), acc)
    }
}

/// The `/`-delimited non-empty segments of a path.
pub open spec fn spec_split(s: Seq<char>) -> Seq<Seq<char>> {
    split_accum(s, 0, Seq::empty(), Seq::empty())
}

/// How one raw segment is classified at registration time.
pub open spec fn spec_classify(seg: Seq<char>) -> SpecResource {
    if seg.len() > 0 && seg[0] == ':' {
        SpecResource::Param(seg.drop_first())
    } else if seg.len() == 1 && seg[0] == '*' {
        SpecResource::Wildcard
    } else {
        SpecResource::Static(seg)
    }
}

/// A whole path pattern, as registration reads it.
pub open spec fn spec_parse(s: Seq<char>) -> Seq<SpecResource> {
    spec_split(s).map_values(|seg: Seq<char>| spec_classify(seg))
}

/// Splits a path into its `/`-delimited non-empty segments.
pub fn split_path(path: &str) -> (segs: Vec<String>)
    ensures
        segs@.map_values(|t: String| t@) == spec_split(path@),
{
    let ghost s = path@;
    let len = path.unicode_len();
    let mut segs: Vec<String> = Vec::new();
    let mut i: usize = 0;
    proof {
        assert(segs@.map_values(|t: String| t@) =~= Seq::<Seq<char>>::empty());
    }
    while i < len
        invariant
            i <= len,
            len == s.len(),
            s == path@,
            split_accum(s, i as int, Seq::empty(), segs@.map_values(|t: String| t@))
                == spec_split(s),
        decreases len - i,
    {
        if path.get_char(i) == '/' {
            i = i + 1;
        } else {
            let start = i;
            proof {
                assert(s.subrange(start as int, start as int) =~= Seq::<char>::empty());
            }
            while i < len && path.get_char(i) != '/'
                invariant
                    start <= i <= len,
                    len == s.len(),
                    s == path@,
                    split_accum(s, i as int, s.subrange(start as int, i as int),
                        segs@.map_values(|t: String| t@)) == spec_split(s),
                decreases len - i,
            {
                proof {
                    assert(s.subrange(start as int, i as int).push(s[i as int]) =~= s.subrange(
                        start as int,
                        i + 1,
                    ));
                }
                i = i + 1;
            }
            let seg = String::from_str(path.substring_char(start, i));
            proof {
                assert(s.subrange(start as int, i as int).len() > 0);
                assert(segs@.push(seg).map_values(|t: String| t@) =~= segs@.map_values(
                    |t: String| t@,
                ).push(seg@));
            }
            segs.push(seg);
        }
    }
    segs
}

/// Classifies one raw segment.
pub fn classify_segment(seg: &String) -> (r: Resource)
    requires
        seg@.len() > 0,
    ensures
        r@ == spec_classify(seg@),
{
    let len = seg.as_str().unicode_len();
    let first = seg.as_str().get_char(0);
    if first == ':' {
        Resource::Param(String::from_str(seg.as_str().substring_char(1, len)))
    } else if len == 1 && first == '*' {
        Resource::Wildcard
    } else {
        Resource::Static(String::from_str(seg.as_str()))
    }
}

/// Parses a path string into the pattern it registers.
pub fn parse_path(path: &str) -> (pat: Vec<Resource>)
    ensures
        pattern_view(pat@) == spec_parse(path@),
{
    let segs = split_path(path);
    let mut pat: Vec<Resource> = Vec::new();
    let mut i: usize = 0;
    proof {
        lemma_split_segments_nonempty(path@, 0, Seq::empty(), Seq::empty());
    }
    while i < segs.len()
        invariant
            i <= segs.len(),
            segs@.map_values(|t: String| t@) == spec_split(path@),
            forall|j: int|
                0 <= j < spec_split(path@).len() ==> #[trigger] spec_split(path@)[j].len() > 0,
            pattern_view(pat@) =~= spec_parse(path@).take(i as int),
        decreases segs.len() - i,
    {
        proof {
            assert(segs@.map_values(|t: String| t@)[i as int] == segs@[i as int]@);
            assert(spec_split(path@)[i as int].len() > 0);
        }
        let r = classify_segment(&segs[i]);
        proof {
            assert(pattern_view(pat@.push(r)) =~= pattern_view(pat@).push(r@));
            assert(spec_parse(path@).take(i + 1) =~= spec_parse(path@).take(i as int).push(
                spec_parse(path@)[i as int],
            ));
        }
        pat.push(r);
        i = i + 1;
    }
    proof {
        assert(spec_parse(path@).take(segs@.len() as int) =~= spec_parse(path@));
    }
    pat
}

/// Every token the split yields is non-empty.
proof fn lemma_split_segments_nonempty(s: Seq<char>, i: int, cur: Seq<char>, acc: Seq<Seq<char>>)
    requires
        forall|j: int| 0 <= j < acc.len() ==> #[trigger] acc[j].len() > 0,
    ensures
        forall|j: int|
            0 <= j < split_accum(s, i, cur, acc).len() ==> #[trigger] split_accum(
                s,
                i,
                cur,
                acc,
            )[j].len() > 0,
    decreases s.len() - i,
{
    if i < 0 || i >= s.len() {
        if cur.len() > 0 {
            let out = acc.push(cur);
            assert forall|j: int| 0 <= j < out.len() implies #[trigger] out[j].len() > 0 by {
                if j < acc.len() {
                    assert(out[j] == acc[j]);
                } else {
                    assert(out[j] == cur);
                }
            }
            assert(split_accum(s, i, cur, acc) == out);
        } else {
            assert(split_accum(s, i, cur, acc) == acc);
        }
    } else if s[i] == '/' {
        let acc2 = if cur.len() > 0 {
            acc.push(cur)
        } else {
            acc
        };
        assert forall|j: int| 0 <= j < acc2.len() implies #[trigger] acc2[j].len() > 0 by {
            if j < acc.len() {
                assert(acc2[j] == acc[j]);
            } else {
                assert(acc2[j] == cur);
            }
        }
        lemma_split_segments_nonempty(s, i + 1, Seq::empty(), acc2);
        let out = split_accum(s, i, cur, acc);
        assert forall|j: int| 0 <= j < out.len() implies #[trigger] out[j].len() > 0 by {
            assert(out == split_accum(s, i + 1, Seq::empty(), acc2));
            assert(split_accum(s, i + 1, Seq::empty(), acc2)[j].len() > 0);
        }
    } else {
        lemma_split_segments_nonempty(s, i + 1, cur.push(s[i]), acc);
        let out = split_accum(s, i, cur, acc);
        assert forall|j: int| 0 <= j < out.len() implies #[trigger] out[j].len() > 0 by {
            assert(out == split_accum(s, i + 1, cur.push(s[i]), acc));
            assert(split_accum(s, i + 1, cur.push(s[i]), acc)[j].len() > 0);
        }
    }
}

} // verus!
