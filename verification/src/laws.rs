//! The library's general guarantees, stated and proved once over the
//! specification functions the public contracts use.

use crate::mapper::{
    build_index, index_of, member_matches, member_ok, remapped_frame, rendered_line,
    rendered_trace, spec_expand, spec_remap_frame, ClassView, IndexView,
};
use crate::mapper::MemberMapping;
use crate::mapping::ProguardRecord;
use crate::stacktrace::{StackFrame, TraceLine};
use vstd::prelude::*;

verus! {

/// Whether a record is a class record that would claim the index slot of
/// the obfuscated name `obf`.
pub open spec fn class_overwrites(r: ProguardRecord, obf: Seq<char>) -> bool {
    match r {
        ProguardRecord::Class { original, obfuscated } => obfuscated@ == obf && original@.len()
            > 0,
        _ => false,
    }
}

proof fn lemma_build_key(
    recs: Seq<ProguardRecord>,
    cur: Option<ClassView>,
    idx: IndexView,
    k: Seq<char>,
)
    requires
        forall|j: int| 0 <= j < recs.len() ==> !class_overwrites(#[trigger] recs[j], k),
    ensures
        match cur {
            Some(cv) => if cv.obfuscated@ == k {
                build_index(recs, cur, idx).contains_key(k) && build_index(recs, cur, idx)[k].original
                    == cv.original
            } else {
                build_index(recs, cur, idx).contains_key(k) == idx.contains_key(k) && (
                idx.contains_key(k) ==> build_index(recs, cur, idx)[k] == idx[k])
            },
            None => build_index(recs, cur, idx).contains_key(k) == idx.contains_key(k) && (
            idx.contains_key(k) ==> build_index(recs, cur, idx)[k] == idx[k]),
        },
    decreases recs.len(),
{
    if recs.len() == 0 {
    } else {
        assert(forall|j: int|
            0 <= j < recs.drop_first().len() ==> !class_overwrites(
                #[trigger] recs.drop_first()[j],
                k,
            ));
        assert(!class_overwrites(recs[0], k));
        match recs[0] {
            ProguardRecord::Class { original, obfuscated } => {
                let idx2 = crate::mapper::flush(cur, idx);
                let cur2: Option<ClassView> = if original@.len() > 0 {
                    Some(ClassView { original, obfuscated, members: Map::empty() })
                } else {
                    None
                };
                lemma_build_key(recs.drop_first(), cur2, idx2, k);
            },
            ProguardRecord::Method { original, obfuscated, original_class, line_mapping } => {
                let cur2: Option<ClassView> = match cur {
                    Some(cv) => Some(
                        crate::mapper::add_member(
                            cv,
                            obfuscated,
                            crate::mapper::derived_member(original, original_class, line_mapping),
                        ),
                    ),
                    None => None,
                };
                lemma_build_key(recs.drop_first(), cur2, idx, k);
            },
            ProguardRecord::Other => {
                lemma_build_key(recs.drop_first(), cur, idx, k);
            },
        }
    }
}

proof fn lemma_build_class_record(
    recs: Seq<ProguardRecord>,
    i: int,
    cur: Option<ClassView>,
    idx: IndexView,
    original: String,
    obfuscated: String,
)
    requires
        0 <= i < recs.len(),
        recs[i] == (ProguardRecord::Class { original, obfuscated }),
        original@.len() > 0,
        forall|j: int| i < j < recs.len() ==> !class_overwrites(#[trigger] recs[j], obfuscated@),
    ensures
        build_index(recs, cur, idx).contains_key(obfuscated@),
        build_index(recs, cur, idx)[obfuscated@].original == original,
    decreases i,
{
    assert(forall|j: int|
        i - 1 < j < recs.drop_first().len() ==> !class_overwrites(
            #[trigger] recs.drop_first()[j],
            obfuscated@,
        ));
    if i == 0 {
        let cur2 = Some(ClassView { original, obfuscated, members: Map::empty() });
        let idx2 = crate::mapper::flush(cur, idx);
        lemma_build_key(recs.drop_first(), cur2, idx2, obfuscated@);
    } else {
        match recs[0] {
            ProguardRecord::Class { original: o2, obfuscated: b2 } => {
                let idx2 = crate::mapper::flush(cur, idx);
                let cur2: Option<ClassView> = if o2@.len() > 0 {
                    Some(ClassView { original: o2, obfuscated: b2, members: Map::empty() })
                } else {
                    None
                };
                lemma_build_class_record(recs.drop_first(), i - 1, cur2, idx2, original, obfuscated);
            },
            ProguardRecord::Method { original: o2, obfuscated: b2, original_class, line_mapping } => {
                let cur2: Option<ClassView> = match cur {
                    Some(cv) => Some(
                        crate::mapper::add_member(
                            cv,
                            b2,
                            crate::mapper::derived_member(o2, original_class, line_mapping),
                        ),
                    ),
                    None => None,
                };
                lemma_build_class_record(recs.drop_first(), i - 1, cur2, idx, original, obfuscated);
            },
            ProguardRecord::Other => {
                lemma_build_class_record(recs.drop_first(), i - 1, cur, idx, original, obfuscated);
            },
        }
    }
}

/// Every class record with a non-empty original name that no later class
/// record under the same obfuscated name overwrites is indexed: the index
/// maps its obfuscated name to its original name, so `remap_class` on the
/// obfuscated name answers the original one.
pub proof fn lemma_class_record_indexed(
    recs: Seq<ProguardRecord>,
    i: int,
    original: String,
    obfuscated: String,
)
    requires
        0 <= i < recs.len(),
        recs[i] == (ProguardRecord::Class { original, obfuscated }),
        original@.len() > 0,
        forall|j: int| i < j < recs.len() ==> !class_overwrites(#[trigger] recs[j], obfuscated@),
    ensures
        index_of(recs).contains_key(obfuscated@),
        index_of(recs)[obfuscated@].original == original,
{
    lemma_build_class_record(recs, i, None, Map::empty(), original, obfuscated);
}

/// The member list a class entry files under the method name `m`, or the
/// empty list where it files none.
pub open spec fn members_or_empty(cv: ClassView, m: Seq<char>) -> Seq<MemberMapping> {
    if cv.members.contains_key(m) {
        cv.members[m]
    } else {
        Seq::empty()
    }
}

/// The members that the Method records of a stream with obfuscated method
/// name `m` contribute, in stream order.
pub open spec fn methods_under(recs: Seq<ProguardRecord>, m: Seq<char>) -> Seq<MemberMapping>
    decreases recs.len(),
{
    if recs.len() == 0 {
        Seq::empty()
    } else {
        let rest = methods_under(recs.drop_first(), m);
        match recs[0] {
            ProguardRecord::Method { original, obfuscated, original_class, line_mapping } => if obfuscated@
                == m {
                seq![
                    crate::mapper::derived_member(original, original_class, line_mapping),
                ] + rest
            } else {
                rest
            },
            _ => rest,
        }
    }
}

proof fn lemma_build_segment_members(
    recs: Seq<ProguardRecord>,
    cv: ClassView,
    idx: IndexView,
    m: Seq<char>,
)
    requires
        forall|j: int|
            0 <= j < recs.len() ==> !((#[trigger] recs[j]) matches ProguardRecord::Class { .. }),
    ensures
        build_index(recs, Some(cv), idx).contains_key(cv.obfuscated@),
        members_or_empty(build_index(recs, Some(cv), idx)[cv.obfuscated@], m) == members_or_empty(
            cv,
            m,
        ) + methods_under(recs, m),
    decreases recs.len(),
{
    if recs.len() == 0 {
        assert(members_or_empty(cv, m) + Seq::<MemberMapping>::empty() =~= members_or_empty(
            cv,
            m,
        ));
    } else {
        assert(forall|j: int|
            0 <= j < recs.drop_first().len() ==> !((#[trigger] recs.drop_first()[j]) matches ProguardRecord::Class { .. }));
        match recs[0] {
            ProguardRecord::Method { original, obfuscated, original_class, line_mapping } => {
                let dm = crate::mapper::derived_member(original, original_class, line_mapping);
                let cv2 = crate::mapper::add_member(cv, obfuscated, dm);
                lemma_build_segment_members(recs.drop_first(), cv2, idx, m);
                if obfuscated@ == m {
                    assert(members_or_empty(cv2, m) =~= members_or_empty(cv, m).push(dm));
                    assert((members_or_empty(cv, m).push(dm)) + methods_under(
                        recs.drop_first(),
                        m,
                    ) =~= members_or_empty(cv, m) + (seq![dm] + methods_under(
                        recs.drop_first(),
                        m,
                    )));
                } else {
                    assert(members_or_empty(cv2, m) =~= members_or_empty(cv, m));
                }
            },
            ProguardRecord::Other => {
                lemma_build_segment_members(recs.drop_first(), cv, idx, m);
            },
            ProguardRecord::Class { .. } => {
                assert(false);
            },
        }
    }
}

proof fn lemma_build_members_in_record_order(
    recs: Seq<ProguardRecord>,
    i: int,
    cur: Option<ClassView>,
    idx: IndexView,
    original: String,
    obfuscated: String,
    m: Seq<char>,
)
    requires
        0 <= i < recs.len(),
        recs[i] == (ProguardRecord::Class { original, obfuscated }),
        original@.len() > 0,
        forall|j: int|
            i < j < recs.len() ==> !((#[trigger] recs[j]) matches ProguardRecord::Class { .. }),
    ensures
        build_index(recs, cur, idx).contains_key(obfuscated@),
        members_or_empty(build_index(recs, cur, idx)[obfuscated@], m) == methods_under(
            recs.skip(i + 1),
            m,
        ),
    decreases i,
{
    assert(forall|j: int|
        i - 1 < j < recs.drop_first().len() ==> !((#[trigger] recs.drop_first()[j]) matches ProguardRecord::Class { .. }));
    assert(recs.drop_first().skip(i) =~= recs.skip(i + 1));
    if i == 0 {
        let cv = ClassView { original, obfuscated, members: Map::empty() };
        let idx2 = crate::mapper::flush(cur, idx);
        lemma_build_segment_members(recs.drop_first(), cv, idx2, m);
        assert(members_or_empty(cv, m) + methods_under(recs.drop_first(), m) =~= methods_under(
            recs.drop_first(),
            m,
        ));
    } else {
        match recs[0] {
            ProguardRecord::Class { original: o2, obfuscated: b2 } => {
                let idx2 = crate::mapper::flush(cur, idx);
                let cur2: Option<ClassView> = if o2@.len() > 0 {
                    Some(ClassView { original: o2, obfuscated: b2, members: Map::empty() })
                } else {
                    None
                };
                lemma_build_members_in_record_order(
                    recs.drop_first(),
                    i - 1,
                    cur2,
                    idx2,
                    original,
                    obfuscated,
                    m,
                );
            },
            ProguardRecord::Method { original: o2, obfuscated: b2, original_class, line_mapping } => {
                let cur2: Option<ClassView> = match cur {
                    Some(cv) => Some(
                        crate::mapper::add_member(
                            cv,
                            b2,
                            crate::mapper::derived_member(o2, original_class, line_mapping),
                        ),
                    ),
                    None => None,
                };
                lemma_build_members_in_record_order(
                    recs.drop_first(),
                    i - 1,
                    cur2,
                    idx,
                    original,
                    obfuscated,
                    m,
                );
            },
            ProguardRecord::Other => {
                lemma_build_members_in_record_order(
                    recs.drop_first(),
                    i - 1,
                    cur,
                    idx,
                    original,
                    obfuscated,
                    m,
                );
            },
        }
    }
}

/// The member list a class files under one obfuscated method name is
/// exactly what that class's Method records with the name contribute, in
/// stream order — so, with the expansion in member order, frames come out
/// in the order of the records of the mapping.
pub proof fn lemma_members_in_record_order(
    recs: Seq<ProguardRecord>,
    i: int,
    original: String,
    obfuscated: String,
    m: Seq<char>,
)
    requires
        0 <= i < recs.len(),
        recs[i] == (ProguardRecord::Class { original, obfuscated }),
        original@.len() > 0,
        forall|j: int|
            i < j < recs.len() ==> !((#[trigger] recs[j]) matches ProguardRecord::Class { .. }),
    ensures
        index_of(recs).contains_key(obfuscated@),
        members_or_empty(index_of(recs)[obfuscated@], m) == methods_under(recs.skip(i + 1), m),
{
    lemma_build_members_in_record_order(recs, i, None, Map::empty(), original, obfuscated, m);
}

/// The members of a list that match a line, in list order.
pub open spec fn matching_members(ms: Seq<MemberMapping>, line: usize) -> Seq<MemberMapping>
    decreases ms.len(),
{
    if ms.len() == 0 {
        Seq::empty()
    } else if member_matches(ms[0], line) {
        seq![ms[0]] + matching_members(ms.drop_first(), line)
    } else {
        matching_members(ms.drop_first(), line)
    }
}

/// A frame's expansion is exactly its matching members, in member order,
/// each remapped against the working frame: emitted frames keep the order
/// of the method records they came from.
pub proof fn lemma_expansion_in_member_order(ms: Seq<MemberMapping>, f: StackFrame)
    ensures
        spec_expand(ms, f) == matching_members(ms, f.line).map_values(
            |m: MemberMapping| remapped_frame(m, f),
        ),
    decreases ms.len(),
{
    let g = |m: MemberMapping| remapped_frame(m, f);
    if ms.len() == 0 {
        assert(Seq::<MemberMapping>::empty().map_values(g) =~= Seq::<StackFrame>::empty());
    } else {
        lemma_expansion_in_member_order(ms.drop_first(), f);
        if member_matches(ms[0], f.line) {
            assert((seq![ms[0]] + matching_members(ms.drop_first(), f.line)).map_values(g)
                =~= seq![remapped_frame(ms[0], f)] + matching_members(
                ms.drop_first(),
                f.line,
            ).map_values(g));
        }
    }
}

/// An expansion yields at least one frame exactly when some member of the
/// list matches the queried line.
pub proof fn lemma_expansion_nonempty(ms: Seq<MemberMapping>, f: StackFrame)
    ensures
        spec_expand(ms, f).len() > 0 <==> exists|i: int|
            0 <= i < ms.len() && member_matches(#[trigger] ms[i], f.line),
    decreases ms.len(),
{
    if ms.len() == 0 {
    } else {
        lemma_expansion_nonempty(ms.drop_first(), f);
        if member_matches(ms[0], f.line) {
        } else {
            if spec_expand(ms.drop_first(), f).len() > 0 {
                let j = choose|j: int|
                    0 <= j < ms.drop_first().len() && member_matches(
                        #[trigger] ms.drop_first()[j],
                        f.line,
                    );
                assert(ms[j + 1] == ms.drop_first()[j]);
            }
            if exists|i: int| 0 <= i < ms.len() && member_matches(#[trigger] ms[i], f.line) {
                let i = choose|i: int|
                    0 <= i < ms.len() && member_matches(#[trigger] ms[i], f.line);
                assert(i != 0);
                assert(ms.drop_first()[i - 1] == ms[i]);
            }
        }
    }
}

/// A frame whose class and method are indexed expands to at least one
/// frame exactly when some member mapping stored under them matches its
/// line; a frame whose class or method is not indexed expands to nothing.
pub proof fn lemma_remap_frame_nonempty(idx: IndexView, f: StackFrame)
    ensures
        idx.contains_key(f.class@) && idx[f.class@].members.contains_key(f.method@) ==> (
        spec_remap_frame(idx, f).len() > 0 <==> exists|i: int|
            0 <= i < idx[f.class@].members[f.method@].len() && member_matches(
                #[trigger] idx[f.class@].members[f.method@][i],
                f.line,
            )),
        !(idx.contains_key(f.class@) && idx[f.class@].members.contains_key(f.method@))
            ==> spec_remap_frame(idx, f) == Seq::<StackFrame>::empty(),
{
    if idx.contains_key(f.class@) && idx[f.class@].members.contains_key(f.method@) {
        let w = StackFrame {
            class: idx[f.class@].original,
            method: f.method,
            file: f.file,
            line: f.line,
        };
        lemma_expansion_nonempty(idx[f.class@].members[f.method@], w);
    }
}

/// A matching member that is not inlined emits the member's original
/// start line shifted by the frame's offset into the obfuscated range,
/// and — unless the member was inlined from a foreign class — carries the
/// input frame's file and class through.
pub proof fn lemma_non_inlined_member(m: MemberMapping, f: StackFrame)
    requires
        member_ok(m),
        member_matches(m, f.line),
        m.original_endline is Some,
    ensures
        remapped_frame(m, f).line == m.original_startline + f.line - m.startline,
        m.original_class is None ==> remapped_frame(m, f).file == f.file && remapped_frame(m, f).class
            == f.class,
{
}

/// A matching inlined member (no original end line) emits its original
/// start line, whatever the queried line was.
pub proof fn lemma_inlined_member(m: MemberMapping, f: StackFrame)
    requires
        m.original_endline is None,
    ensures
        remapped_frame(m, f).line == m.original_startline,
{
}

/// A member inlined from a foreign class emits that class, and no file:
/// the mapping alone cannot name the foreign source file.
pub proof fn lemma_foreign_member(m: MemberMapping, f: StackFrame, c: String)
    requires
        m.original_class == Some(c),
    ensures
        remapped_frame(m, f).class == c,
        remapped_frame(m, f).file is None,
{
}

proof fn lemma_rendered_trace_concat(idx: IndexView, a: Seq<TraceLine>, b: Seq<TraceLine>)
    ensures
        rendered_trace(idx, a + b) == rendered_trace(idx, a) + rendered_trace(idx, b),
    decreases b.len(),
{
    if b.len() == 0 {
        assert(a + b =~= a);
        assert(rendered_trace(idx, b) == Seq::<char>::empty());
        assert(rendered_trace(idx, a) + Seq::<char>::empty() =~= rendered_trace(idx, a));
    } else {
        assert((a + b).drop_last() =~= a + b.drop_last());
        assert((a + b).last() == b.last());
        lemma_rendered_trace_concat(idx, a, b.drop_last());
        assert((rendered_trace(idx, a) + rendered_trace(idx, b.drop_last())) + rendered_line(
            idx,
            b.last(),
        ) =~= rendered_trace(idx, a) + (rendered_trace(idx, b.drop_last()) + rendered_line(
            idx,
            b.last(),
        )));
    }
}

/// The trace rewriter is a line-preserving map: around any line the frame
/// parser rejected, the output splits into the rewriting of the earlier
/// lines, that line verbatim with its terminator, and the rewriting of
/// the later lines — so rejected lines appear unchanged, in input order.
pub proof fn lemma_passthrough_line(idx: IndexView, lines: Seq<TraceLine>, i: int, s: String)
    requires
        0 <= i < lines.len(),
        lines[i] == TraceLine::Raw(s),
    ensures
        rendered_trace(idx, lines) == rendered_trace(idx, lines.take(i)) + (s@ + "\n"@)
            + rendered_trace(idx, lines.skip(i + 1)),
{
    assert(lines =~= (lines.take(i) + seq![lines[i]]) + lines.skip(i + 1));
    lemma_rendered_trace_concat(idx, lines.take(i) + seq![lines[i]], lines.skip(i + 1));
    lemma_rendered_trace_concat(idx, lines.take(i), seq![lines[i]]);
    assert(seq![lines[i]].drop_last() =~= Seq::<TraceLine>::empty());
    assert(seq![lines[i]].last() == lines[i]);
    assert(rendered_trace(idx, Seq::<TraceLine>::empty()) == Seq::<char>::empty());
    assert(Seq::<char>::empty() + rendered_line(idx, lines[i]) =~= rendered_line(idx, lines[i]));
    assert(rendered_trace(idx, seq![lines[i]]) == rendered_line(idx, lines[i]));
    assert((rendered_trace(idx, lines.take(i)) + rendered_line(idx, lines[i])) + rendered_trace(
        idx,
        lines.skip(i + 1),
    ) =~= rendered_trace(idx, lines.take(i)) + rendered_line(idx, lines[i]) + rendered_trace(
        idx,
        lines.skip(i + 1),
    ));
}

} // verus!
