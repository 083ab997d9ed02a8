//! The remapper: an index built once from a record stream, and the query
//! surface over it.

use crate::mapping::{record_ok, LineMapping, ProguardRecord};
use crate::render::{append_frame_line, frame_line};
use crate::stacktrace::{StackFrame, TraceLine};
use vstd::prelude::*;
use vstd::string::StringExecFns;

verus! {

/// One physical range of obfuscated lines attributed to one original
/// method.  `startline` and `endline` are both 0 when the source record
/// carried no line information; such a member matches any queried line.
/// `original_class` is present when the range is a body inlined from a
/// foreign class, and `original_endline` is absent when the range is an
/// inlined callee that collapses to the single line `original_startline`.
#[derive(Clone, Debug)]
pub struct MemberMapping {
    pub startline: usize,
    pub endline: usize,
    pub original_class: Option<String>,
    pub original: String,
    pub original_startline: usize,
    pub original_endline: Option<usize>,
}

/// The member mappings filed under one obfuscated method name, in the
/// order their records appeared in the stream.
#[derive(Clone, Debug)]
pub(crate) struct MemberEntry {
    pub obfuscated: String,
    pub mappings: Vec<MemberMapping>,
}

/// One original/obfuscated class pair with its member table.
#[derive(Clone, Debug)]
pub(crate) struct ClassMapping {
    pub original: String,
    pub obfuscated: String,
    pub members: Vec<MemberEntry>,
}

/// The mathematical reading of one indexed class: its names and, per
/// obfuscated method name, the member mappings in stream order.
#[verifier::ext_equal]
pub ghost struct ClassView {
    pub original: String,
    pub obfuscated: String,
    pub members: Map<Seq<char>, Seq<MemberMapping>>,
}

/// The mathematical reading of the whole index: obfuscated class name to
/// class entry.
pub type IndexView = Map<Seq<char>, ClassView>;

/// A member is free of `usize` overflow on every line it matches.
pub open spec fn member_ok(m: MemberMapping) -> bool {
    m.original_endline is Some ==> {
        &&& 1 <= m.startline
        &&& 1 <= m.endline
        &&& (m.endline < m.startline || m.original_startline + m.endline - m.startline
            <= usize::MAX)
    }
}

pub(crate) open spec fn entry_ok(e: MemberEntry) -> bool {
    forall|i: int| 0 <= i < e.mappings@.len() ==> member_ok(#[trigger] e.mappings@[i])
}

pub(crate) open spec fn entry_keys_unique(s: Seq<MemberEntry>) -> bool {
    forall|a: int, b: int|
        0 <= a < b < s.len() ==> (#[trigger] s[a]).obfuscated@ != (#[trigger] s[b]).obfuscated@
}

pub(crate) open spec fn class_ok(c: ClassMapping) -> bool {
    &&& entry_keys_unique(c.members@)
    &&& forall|i: int| 0 <= i < c.members@.len() ==> entry_ok(#[trigger] c.members@[i])
}

/// The member table of a class, read as a map.  Built left to right, so a
/// later entry under the same name would win; construction keeps the names
/// unique, so the question does not arise there.
pub(crate) open spec fn entries_map(s: Seq<MemberEntry>) -> Map<Seq<char>, Seq<MemberMapping>>
    decreases s.len(),
{
    if s.len() == 0 {
        Map::empty()
    } else {
        entries_map(s.drop_last()).insert(s.last().obfuscated@, s.last().mappings@)
    }
}

pub(crate) open spec fn class_view(c: ClassMapping) -> ClassView {
    ClassView { original: c.original, obfuscated: c.obfuscated, members: entries_map(c.members@) }
}

/// The class table read as a map.  Built left to right: of two classes
/// stored under one obfuscated name, the later wins.
pub(crate) open spec fn classes_map(s: Seq<ClassMapping>) -> IndexView
    decreases s.len(),
{
    if s.len() == 0 {
        Map::empty()
    } else {
        classes_map(s.drop_last()).insert(s.last().obfuscated@, class_view(s.last()))
    }
}

/// The four line numbers a `Method` record contributes, derived from its
/// optional line mapping:
/// - no line mapping: a wildcard member with both obfuscated lines 0;
/// - a line mapping with an original start: that start, and the original
///   end as given (absent for an inlined callee);
/// - a line mapping without an original start: the original range equals
///   the obfuscated range.
pub open spec fn derived_member(
    original: String,
    original_class: Option<String>,
    lm: Option<LineMapping>,
) -> MemberMapping {
    match lm {
        None => MemberMapping {
            startline: 0,
            endline: 0,
            original_class,
            original,
            original_startline: 0,
            original_endline: None,
        },
        Some(lm) => MemberMapping {
            startline: lm.startline,
            endline: lm.endline,
            original_class,
            original,
            original_startline: match lm.original_startline {
                Some(os) => os,
                None => lm.startline,
            },
            original_endline: match lm.original_startline {
                Some(_) => lm.original_endline,
                None => Some(lm.endline),
            },
        },
    }
}

/// A class entry with one more member filed under `obfuscated`.
pub open spec fn add_member(cv: ClassView, obfuscated: String, m: MemberMapping) -> ClassView {
    ClassView {
        original: cv.original,
        obfuscated: cv.obfuscated,
        members: cv.members.insert(
            obfuscated@,
            (if cv.members.contains_key(obfuscated@) {
                cv.members[obfuscated@]
            } else {
                Seq::empty()
            }).push(m),
        ),
    }
}

/// Inserts the class under construction, if any, into the index.
pub open spec fn flush(cur: Option<ClassView>, idx: IndexView) -> IndexView {
    match cur {
        Some(cv) => idx.insert(cv.obfuscated@, cv),
        None => idx,
    }
}

/// One pass over the record stream.  `cur` is the class whose records are
/// being read (`None` while no class with a non-empty original name is
/// open; members seen then are dropped, as are `Other` records and, at a
/// class boundary, a finished class is inserted so that a later class
/// under the same obfuscated name overwrites an earlier one).
pub open spec fn build_index(recs: Seq<ProguardRecord>, cur: Option<ClassView>, idx: IndexView)
    -> IndexView
    decreases recs.len(),
{
    if recs.len() == 0 {
        flush(cur, idx)
    } else {
        match recs[0] {
            ProguardRecord::Class { original, obfuscated } => build_index(
                recs.drop_first(),
                if original@.len() > 0 {
                    Some(ClassView { original, obfuscated, members: Map::empty() })
                } else {
                    None
                },
                flush(cur, idx),
            ),
            ProguardRecord::Method { original, obfuscated, original_class, line_mapping } => build_index(
                recs.drop_first(),
                match cur {
                    Some(cv) => Some(
                        add_member(cv, obfuscated, derived_member(original, original_class, line_mapping)),
                    ),
                    None => None,
                },
                idx,
            ),
            ProguardRecord::Other => build_index(recs.drop_first(), cur, idx),
        }
    }
}

/// The index that a record stream denotes.
pub open spec fn index_of(recs: Seq<ProguardRecord>) -> IndexView {
    build_index(recs, None, Map::empty())
}

/// Whether a member covers the queried obfuscated line: an explicit range
/// must contain it; a member whose `endline` is 0 carries no line
/// information and matches any line.
pub open spec fn member_matches(m: MemberMapping, line: usize) -> bool {
    !(m.endline > 0 && (line < m.startline || line > m.endline))
}

/// The frame a matching member emits.  An inlined callee collapses to its
/// single original line; otherwise the offset into the obfuscated range is
/// preserved.  A body inlined from a foreign class names that class and
/// drops the file hint, which the mapping alone cannot supply.
pub open spec fn remapped_frame(m: MemberMapping, f: StackFrame) -> StackFrame {
    StackFrame {
        class: match m.original_class {
            Some(c) => c,
            None => f.class,
        },
        method: m.original,
        file: match m.original_class {
            Some(_) => None,
            None => f.file,
        },
        line: match m.original_endline {
            Some(_) => ((m.original_startline + f.line - m.startline) as usize),
            None => m.original_startline,
        },
    }
}

/// The expansion of one working frame over a member list: every matching
/// member emits a frame, in list order.
pub open spec fn spec_expand(ms: Seq<MemberMapping>, f: StackFrame) -> Seq<StackFrame>
    decreases ms.len(),
{
    if ms.len() == 0 {
        Seq::empty()
    } else {
        let rest = spec_expand(ms.drop_first(), f);
        if member_matches(ms[0], f.line) {
            seq![remapped_frame(ms[0], f)] + rest
        } else {
            rest
        }
    }
}

/// What `remap_frame` answers: nothing unless the frame's class and method
/// are indexed; otherwise the expansion of the frame, retargeted at the
/// enclosing class's original name, over the member list found.
pub open spec fn spec_remap_frame(idx: IndexView, f: StackFrame) -> Seq<StackFrame> {
    if idx.contains_key(f.class@) && idx[f.class@].members.contains_key(f.method@) {
        spec_expand(
            idx[f.class@].members[f.method@],
            StackFrame { class: idx[f.class@].original, method: f.method, file: f.file, line: f.line },
        )
    } else {
        Seq::empty()
    }
}

/// The lines an expansion prints, one rendered frame line each.
pub open spec fn rendered_frames(fs: Seq<StackFrame>) -> Seq<char>
    decreases fs.len(),
{
    if fs.len() == 0 {
        Seq::empty()
    } else {
        frame_line(fs[0]) + rendered_frames(fs.drop_first())
    }
}

/// What one classified trace line contributes to the output: rejected
/// lines and frames with an empty expansion pass through verbatim, each
/// closed by one line terminator; anything else prints its expansion.
pub open spec fn rendered_line(idx: IndexView, l: TraceLine) -> Seq<char> {
    match l {
        TraceLine::Raw(s) => s@ + "\n"@,
        TraceLine::Frame(s, f) => {
            let ex = spec_remap_frame(idx, f);
            if ex.len() == 0 {
                s@ + "\n"@
            } else {
                rendered_frames(ex)
            }
        },
    }
}

/// The whole rewritten trace: the lines' contributions, in input order.
pub open spec fn rendered_trace(idx: IndexView, lines: Seq<TraceLine>) -> Seq<char>
    decreases lines.len(),
{
    if lines.len() == 0 {
        Seq::empty()
    } else {
        rendered_trace(idx, lines.drop_last()) + rendered_line(idx, lines.last())
    }
}

proof fn lemma_rendered_frames_snoc(fs: Seq<StackFrame>, x: StackFrame)
    ensures
        rendered_frames(fs.push(x)) == rendered_frames(fs) + frame_line(x),
    decreases fs.len(),
{
    if fs.len() == 0 {
        assert(fs.push(x)[0] == x);
        assert(fs.push(x).drop_first() =~= Seq::<StackFrame>::empty());
        assert(rendered_frames(Seq::<StackFrame>::empty()) == Seq::<char>::empty());
        assert(rendered_frames(fs.push(x)) == frame_line(x) + Seq::<char>::empty());
        assert(rendered_frames(fs) == Seq::<char>::empty());
        assert(frame_line(x) + Seq::<char>::empty() =~= Seq::<char>::empty() + frame_line(x));
    } else {
        assert(fs.push(x)[0] == fs[0]);
        assert(fs.push(x).drop_first() =~= fs.drop_first().push(x));
        lemma_rendered_frames_snoc(fs.drop_first(), x);
        assert((frame_line(fs[0]) + rendered_frames(fs.drop_first())) + frame_line(x)
            =~= frame_line(fs[0]) + (rendered_frames(fs.drop_first()) + frame_line(x)));
    }
}

pub(crate) open spec fn cur_view(c: ClassMapping) -> Option<ClassView> {
    if c.original@.len() > 0 {
        Some(class_view(c))
    } else {
        None
    }
}

proof fn lemma_classes_map_push(s: Seq<ClassMapping>, c: ClassMapping)
    ensures
        classes_map(s.push(c)) == classes_map(s).insert(c.obfuscated@, class_view(c)),
{
    assert(s.push(c).drop_last() =~= s);
    assert(s.push(c).last() == c);
}

proof fn lemma_entries_map_push(s: Seq<MemberEntry>, e: MemberEntry)
    ensures
        entries_map(s.push(e)) == entries_map(s).insert(e.obfuscated@, e.mappings@),
{
    assert(s.push(e).drop_last() =~= s);
    assert(s.push(e).last() == e);
}

proof fn lemma_classes_map_no_match(s: Seq<ClassMapping>, k: Seq<char>)
    requires
        forall|j: int| 0 <= j < s.len() ==> (#[trigger] s[j]).obfuscated@ != k,
    ensures
        !classes_map(s).contains_key(k),
    decreases s.len(),
{
    if s.len() > 0 {
        lemma_classes_map_no_match(s.drop_last(), k);
    }
}

proof fn lemma_classes_map_match(s: Seq<ClassMapping>, k: Seq<char>, j: int)
    requires
        0 <= j < s.len(),
        s[j].obfuscated@ == k,
        forall|l: int| j < l < s.len() ==> (#[trigger] s[l]).obfuscated@ != k,
    ensures
        classes_map(s).contains_key(k),
        classes_map(s)[k] == class_view(s[j]),
    decreases s.len(),
{
    if j == s.len() - 1 {
    } else {
        lemma_classes_map_match(s.drop_last(), k, j);
    }
}

proof fn lemma_entries_map_no_match(s: Seq<MemberEntry>, k: Seq<char>)
    requires
        forall|j: int| 0 <= j < s.len() ==> (#[trigger] s[j]).obfuscated@ != k,
    ensures
        !entries_map(s).contains_key(k),
    decreases s.len(),
{
    if s.len() > 0 {
        lemma_entries_map_no_match(s.drop_last(), k);
    }
}

proof fn lemma_entries_map_match(s: Seq<MemberEntry>, k: Seq<char>, j: int)
    requires
        0 <= j < s.len(),
        s[j].obfuscated@ == k,
        forall|l: int| j < l < s.len() ==> (#[trigger] s[l]).obfuscated@ != k,
    ensures
        entries_map(s).contains_key(k),
        entries_map(s)[k] == s[j].mappings@,
    decreases s.len(),
{
    if j == s.len() - 1 {
    } else {
        lemma_entries_map_match(s.drop_last(), k, j);
    }
}

proof fn lemma_entries_map_update(s: Seq<MemberEntry>, j: int, e2: MemberEntry)
    requires
        0 <= j < s.len(),
        entry_keys_unique(s),
        e2.obfuscated@ == s[j].obfuscated@,
    ensures
        entries_map(s.update(j, e2)) == entries_map(s).insert(e2.obfuscated@, e2.mappings@),
    decreases s.len(),
{
    let k = e2.obfuscated@;
    let t = s.update(j, e2);
    if j == s.len() - 1 {
        assert(t.drop_last() =~= s.drop_last());
        assert(t.last() == e2);
        assert(entries_map(s.drop_last()).insert(k, s[j].mappings@).insert(k, e2.mappings@)
            =~= entries_map(s.drop_last()).insert(k, e2.mappings@));
    } else {
        assert(t.drop_last() =~= s.drop_last().update(j, e2));
        assert(t.last() == s.last());
        assert(entry_keys_unique(s.drop_last()));
        lemma_entries_map_update(s.drop_last(), j, e2);
        let lk = s.last().obfuscated@;
        assert(s.last() == s[s.len() - 1]);
        assert(lk != k);
        assert(entries_map(s.drop_last()).insert(k, e2.mappings@).insert(lk, s.last().mappings@)
            =~= entries_map(s.drop_last()).insert(lk, s.last().mappings@).insert(
            k,
            e2.mappings@,
        ));
    }
}

/// Character-for-character string comparison, decided against the views.
fn str_eq(a: &str, b: &str) -> (r: bool)
    ensures
        r == (a@ == b@),
{
    let la = a.unicode_len();
    let lb = b.unicode_len();
    if la != lb {
        return false;
    }
    let mut i: usize = 0;
    while i < la
        invariant
            0 <= i <= la,
            la == a@.len(),
            lb == b@.len(),
            la == lb,
            forall|t: int| 0 <= t < i ==> a@[t] == b@[t],
        decreases la - i,
    {
        if a.get_char(i) != b.get_char(i) {
            return false;
        }
        i += 1;
    }
    proof {
        assert(a@ =~= b@);
    }
    true
}

fn clone_opt_string(o: &Option<String>) -> (r: Option<String>)
    ensures
        r == *o,
{
    match o {
        Some(s) => Some(s.clone()),
        None => None,
    }
}

/// The index of the entry filed under `name`, if any.
fn find_entry(entries: &Vec<MemberEntry>, name: &str) -> (r: Option<usize>)
    ensures
        match r {
            Some(j) => j < entries@.len() && entries@[j as int].obfuscated@ == name@,
            None => forall|l: int|
                0 <= l < entries@.len() ==> (#[trigger] entries@[l]).obfuscated@ != name@,
        },
{
    let n = entries.len();
    let mut i: usize = 0;
    while i < n
        invariant
            0 <= i <= n,
            n == entries@.len(),
            forall|l: int| 0 <= l < i ==> (#[trigger] entries@[l]).obfuscated@ != name@,
        decreases n - i,
    {
        if str_eq(entries[i].obfuscated.as_str(), name) {
            return Some(i);
        }
        i += 1;
    }
    None
}

/// A remapper index.
///
/// Built once from a stream of records, immutable afterwards; remaps class
/// names, stack frames one at a time, or a whole classified stack trace.
#[derive(Clone, Debug)]
pub struct ProguardMapper {
    classes: Vec<ClassMapping>,
}

impl View for ProguardMapper {
    type V = IndexView;

    closed spec fn view(&self) -> IndexView {
        classes_map(self.classes@)
    }
}

impl ProguardMapper {
    /// Every stored member is free of overflow on the lines it matches,
    /// and the member table of every class keys its entries uniquely.
    pub closed spec fn wf(&self) -> bool {
        forall|i: int| 0 <= i < self.classes@.len() ==> class_ok(#[trigger] self.classes@[i])
    }

    /// Builds the index in a single pass, as `index_of` reads the stream:
    /// `Class` records open a fresh class entry and file the finished one,
    /// `Method` records append a member under their obfuscated method
    /// name, anything else is ignored.
    pub fn new(records: &Vec<ProguardRecord>) -> (mapper: Self)
        requires
            forall|i: int| 0 <= i < records@.len() ==> record_ok(#[trigger] records@[i]),
        ensures
            mapper@ == index_of(records@),
            mapper.wf(),
    {
        let mut classes: Vec<ClassMapping> = Vec::new();
        let mut current = ClassMapping {
            original: String::new(),
            obfuscated: String::new(),
            members: Vec::new(),
        };
        proof {
            assert(records@.skip(0) =~= records@);
        }
        let n = records.len();
        let mut i: usize = 0;
        while i < n
            invariant
                0 <= i <= n,
                n == records@.len(),
                forall|j: int| 0 <= j < records@.len() ==> record_ok(#[trigger] records@[j]),
                build_index(records@.skip(i as int), cur_view(current), classes_map(classes@))
                    == index_of(records@),
                class_ok(current),
                forall|j: int| 0 <= j < classes@.len() ==> class_ok(#[trigger] classes@[j]),
            decreases n - i,
        {
            let ghost pre_cur = current;
            let ghost pre_classes = classes@;
            proof {
                assert(records@.skip(i as int)[0] == records@[i as int]);
                assert(records@.skip(i as int).drop_first() =~= records@.skip(i as int + 1));
            }
            match &records[i] {
                ProguardRecord::Class { original, obfuscated } => {
                    if !current.original.as_str().is_empty() {
                        classes.push(current);
                        proof {
                            lemma_classes_map_push(pre_classes, pre_cur);
                        }
                    }
                    current = ClassMapping {
                        original: original.clone(),
                        obfuscated: obfuscated.clone(),
                        members: Vec::new(),
                    };
                    proof {
                        if original@.len() > 0 {
                            assert(cur_view(current) == Some(
                                ClassView {
                                    original: *original,
                                    obfuscated: *obfuscated,
                                    members: Map::empty(),
                                },
                            ));
                        }
                    }
                }
                ProguardRecord::Method { original, obfuscated, original_class, line_mapping } => {
                    let mm: MemberMapping = match line_mapping {
                        None => MemberMapping {
                            startline: 0,
                            endline: 0,
                            original_class: clone_opt_string(original_class),
                            original: original.clone(),
                            original_startline: 0,
                            original_endline: None,
                        },
                        Some(l) => MemberMapping {
                            startline: l.startline,
                            endline: l.endline,
                            original_class: clone_opt_string(original_class),
                            original: original.clone(),
                            original_startline: match l.original_startline {
                                Some(os) => os,
                                None => l.startline,
                            },
                            original_endline: match l.original_startline {
                                Some(_) => l.original_endline,
                                None => Some(l.endline),
                            },
                        },
                    };
                    proof {
                        assert(mm == derived_member(*original, *original_class, *line_mapping));
                        assert(record_ok(records@[i as int]));
                        assert(member_ok(mm));
                    }
                    match find_entry(&current.members, obfuscated.as_str()) {
                        Some(j) => {
                            let mut e = current.members.remove(j);
                            let ghost old_mappings = e.mappings@;
                            e.mappings.push(mm);
                            let ghost e2 = e;
                            current.members.insert(j, e);
                            proof {
                                assert(current.members@ =~= pre_cur.members@.update(j as int, e2));
                                lemma_entries_map_update(pre_cur.members@, j as int, e2);
                                assert(forall|l: int|
                                    j < l < pre_cur.members@.len() ==> (#[trigger] pre_cur.members@[l]).obfuscated@
                                        != obfuscated@);
                                lemma_entries_map_match(pre_cur.members@, obfuscated@, j as int);
                                if pre_cur.original@.len() > 0 {
                                    assert(class_view(current) =~= add_member(
                                        class_view(pre_cur),
                                        *obfuscated,
                                        mm,
                                    ));
                                }
                                assert(class_ok(current));
                            }
                        }
                        None => {
                            let mut mappings: Vec<MemberMapping> = Vec::new();
                            mappings.push(mm);
                            let entry = MemberEntry { obfuscated: obfuscated.clone(), mappings };
                            let ghost e2 = entry;
                            current.members.push(entry);
                            proof {
                                lemma_entries_map_push(pre_cur.members@, e2);
                                lemma_entries_map_no_match(pre_cur.members@, obfuscated@);
                                assert(e2.mappings@ =~= Seq::<MemberMapping>::empty().push(mm));
                                if pre_cur.original@.len() > 0 {
                                    assert(class_view(current) =~= add_member(
                                        class_view(pre_cur),
                                        *obfuscated,
                                        mm,
                                    ));
                                }
                                assert(class_ok(current));
                            }
                        }
                    }
                }
                ProguardRecord::Other => {
                }
            }
            i += 1;
        }
        proof {
            assert(records@.skip(n as int) =~= Seq::<ProguardRecord>::empty());
        }
        let ghost end_cur = current;
        let ghost end_classes = classes@;
        if !current.original.as_str().is_empty() {
            classes.push(current);
            proof {
                lemma_classes_map_push(end_classes, end_cur);
            }
        }
        ProguardMapper { classes }
    }

    /// The stored class filed under `name`; scans from the back, so of two
    /// classes stored under one obfuscated name the later wins, as the
    /// view does.
    fn find_class(&self, name: &str) -> (r: Option<&ClassMapping>)
        ensures
            match r {
                Some(c) => self@.contains_key(name@) && class_view(*c) == self@[name@] && (
                self.wf() ==> class_ok(*c)),
                None => !self@.contains_key(name@),
            },
    {
        let n = self.classes.len();
        let mut i: usize = n;
        while i > 0
            invariant
                0 <= i <= n,
                n == self.classes@.len(),
                forall|l: int| i <= l < n ==> (#[trigger] self.classes@[l]).obfuscated@ != name@,
            decreases i,
        {
            i = i - 1;
            if str_eq(self.classes[i].obfuscated.as_str(), name) {
                proof {
                    lemma_classes_map_match(self.classes@, name@, i as int);
                }
                return Some(&self.classes[i]);
            }
        }
        proof {
            lemma_classes_map_no_match(self.classes@, name@);
        }
        None
    }

    /// Remaps an obfuscated class name to the original one, by its
    /// fully-qualified name: the `original` of the class entry stored
    /// under the name, or nothing where no class is indexed under it.
    pub fn remap_class<'a>(&'a self, class: &str) -> (r: Option<&'a str>)
        ensures
            match r {
                Some(orig) => self@.contains_key(class@) && orig@ == self@[class@].original@,
                None => !self@.contains_key(class@),
            },
    {
        match self.find_class(class) {
            Some(c) => Some(c.original.as_str()),
            None => None,
        }
    }

    /// Remaps a single stack frame to the frames it stands for: none when
    /// the frame's class or method is not indexed, and otherwise one frame
    /// per matching member mapping, in mapping order — more than one where
    /// calls were inlined, sorted outermost caller first.
    pub fn remap_frame(&self, frame: &StackFrame) -> (iter: RemappedFrameIter)
        requires
            self.wf(),
        ensures
            iter.wf(),
            iter.frames() == spec_remap_frame(self@, *frame),
    {
        if let Some(class) = self.find_class(frame.class.as_str()) {
            if let Some(j) = find_entry(&class.members, frame.method.as_str()) {
                let mappings = clone_members(&class.members[j].mappings);
                let working = StackFrame {
                    class: class.original.clone(),
                    method: frame.method.clone(),
                    file: clone_opt_string(&frame.file),
                    line: frame.line,
                };
                proof {
                    assert(class_ok(*class));
                    assert(forall|l: int|
                        (j as int) < l < class.members@.len()
                            ==> (#[trigger] class.members@[l]).obfuscated@ != frame.method@);
                    lemma_entries_map_match(class.members@, frame.method@, j as int);
                    assert(entry_ok(class.members@[j as int]));
                }
                return RemappedFrameIter::members(working, mappings);
            } else {
                proof {
                    lemma_entries_map_no_match(class.members@, frame.method@);
                }
            }
        }
        RemappedFrameIter::empty()
    }

    /// Rewrites a whole classified stack trace, line by line: a line the
    /// frame parser rejected, or whose frame expands to nothing, passes
    /// through verbatim; any other line is replaced by the rendering of
    /// its expansion.  Every emitted line is closed by one terminator.
    ///
    /// A raw trace becomes the expected `lines` by framing it with
    /// `crate::stacktrace::split_lines` and handing each line to the
    /// caller's frame parser.  Writing into an owned buffer, the rewrite
    /// itself cannot fail.
    pub fn remap_stacktrace(&self, lines: &Vec<TraceLine>) -> (out: String)
        requires
            self.wf(),
        ensures
            out@ == rendered_trace(self@, lines@),
    {
        let mut out = String::new();
        let n = lines.len();
        let mut i: usize = 0;
        while i < n
            invariant
                0 <= i <= n,
                n == lines@.len(),
                self.wf(),
                out@ == rendered_trace(self@, lines@.take(i as int)),
            decreases n - i,
        {
            proof {
                assert(lines@.take(i as int + 1).drop_last() =~= lines@.take(i as int));
                assert(lines@.take(i as int + 1).last() == lines@[i as int]);
            }
            let ghost prev = out@;
            match &lines[i] {
                TraceLine::Raw(s) => {
                    out.append(s.as_str());
                    out.append("\n");
                    proof {
                        assert((prev + s@) + "\n"@ =~= prev + (s@ + "\n"@));
                    }
                },
                TraceLine::Frame(s, f) => {
                    let mut it = self.remap_frame(f);
                    let ghost full = spec_remap_frame(self@, *f);
                    let mut nxt = it.next();
                    if nxt.is_none() {
                        out.append(s.as_str());
                        out.append("\n");
                        proof {
                            assert((prev + s@) + "\n"@ =~= prev + (s@ + "\n"@));
                        }
                    } else {
                        let ghost mut k: int = 0;
                        proof {
                            assert(rendered_frames(full.take(0)) =~= Seq::<char>::empty());
                            assert(prev + Seq::<char>::empty() =~= prev);
                        }
                        while nxt.is_some()
                            invariant
                                full.len() > 0,
                                0 <= k <= full.len(),
                                it.wf(),
                                out@ == prev + rendered_frames(full.take(k)),
                                match nxt {
                                    Some(g) => k < full.len() && g == full[k] && it.frames()
                                        == full.skip(k + 1),
                                    None => k == full.len() && it.frames() == Seq::<
                                        StackFrame,
                                    >::empty(),
                                },
                            decreases full.len() - k + (if nxt.is_some() {
                                1int
                            } else {
                                0int
                            }),
                        {
                            let fr = nxt.unwrap();
                            append_frame_line(&mut out, &fr);
                            proof {
                                assert(full.take(k + 1) =~= full.take(k).push(full[k]));
                                lemma_rendered_frames_snoc(full.take(k), full[k]);
                                assert((prev + rendered_frames(full.take(k))) + frame_line(fr)
                                    =~= prev + (rendered_frames(full.take(k)) + frame_line(fr)));
                            }
                            nxt = it.next();
                            proof {
                                if nxt is Some {
                                    assert(full.skip(k + 1)[0] == full[k + 1]);
                                    assert(full.skip(k + 1).drop_first() =~= full.skip(k + 2));
                                } else {
                                    assert(full.skip(k + 1) =~= Seq::<StackFrame>::empty());
                                    assert(full.len() == k + 1);
                                }
                                k = k + 1;
                            }
                        }
                        proof {
                            assert(full.take(k) =~= full);
                        }
                    }
                },
            }
            i += 1;
        }
        proof {
            assert(lines@.take(n as int) =~= lines@);
        }
        out
    }
}

fn clone_member(m: &MemberMapping) -> (r: MemberMapping)
    ensures
        r == *m,
{
    MemberMapping {
        startline: m.startline,
        endline: m.endline,
        original_class: clone_opt_string(&m.original_class),
        original: m.original.clone(),
        original_startline: m.original_startline,
        original_endline: m.original_endline,
    }
}

fn clone_members(v: &Vec<MemberMapping>) -> (r: Vec<MemberMapping>)
    ensures
        r@ == v@,
{
    let mut r: Vec<MemberMapping> = Vec::new();
    let n = v.len();
    let mut i: usize = 0;
    while i < n
        invariant
            0 <= i <= n,
            n == v@.len(),
            r@ == v@.subrange(0, i as int),
        decreases n - i,
    {
        r.push(clone_member(&v[i]));
        proof {
            assert(v@.subrange(0, i as int).push(v@[i as int]) =~= v@.subrange(0, i as int + 1));
        }
        i += 1;
    }
    proof {
        assert(v@.subrange(0, n as int) =~= v@);
    }
    r
}

#[derive(Clone, Debug)]
struct IterState {
    frame: StackFrame,
    members: Vec<MemberMapping>,
    pos: usize,
}

/// The frames one obfuscated frame stands for, handed out one at a time.
/// Fused: once it has answered nothing it keeps answering nothing.
#[derive(Clone, Debug, Default)]
pub struct RemappedFrameIter {
    inner: Option<IterState>,
}

impl RemappedFrameIter {
    /// The frames still to be handed out.
    pub closed spec fn frames(&self) -> Seq<StackFrame> {
        match self.inner {
            None => Seq::empty(),
            Some(st) => spec_expand(st.members@.skip(st.pos as int), st.frame),
        }
    }

    /// Every member still to be scanned is free of overflow.
    pub closed spec fn wf(&self) -> bool {
        match self.inner {
            None => true,
            Some(st) => st.pos <= st.members@.len() && forall|i: int|
                0 <= i < st.members@.len() ==> member_ok(#[trigger] st.members@[i]),
        }
    }

    fn empty() -> (r: Self)
        ensures
            r.wf(),
            r.frames() == Seq::<StackFrame>::empty(),
    {
        RemappedFrameIter { inner: None }
    }

    fn members(frame: StackFrame, members: Vec<MemberMapping>) -> (r: Self)
        requires
            forall|i: int| 0 <= i < members@.len() ==> member_ok(#[trigger] members@[i]),
        ensures
            r.wf(),
            r.frames() == spec_expand(members@, frame),
    {
        let ghost ms = members@;
        let r = RemappedFrameIter { inner: Some(IterState { frame, members, pos: 0 }) };
        proof {
            assert(ms.skip(0) =~= ms);
        }
        r
    }

    /// The next remapped frame: scans the members from the current
    /// position, skips those whose line range does not cover the queried
    /// line, and emits the first match.
    pub fn next(&mut self) -> (item: Option<StackFrame>)
        requires
            old(self).wf(),
        ensures
            final(self).wf(),
            match item {
                Some(f) => old(self).frames().len() > 0 && f == old(self).frames()[0]
                    && final(self).frames() == old(self).frames().drop_first(),
                None => old(self).frames().len() == 0 && final(self).frames()
                    == Seq::<StackFrame>::empty(),
            },
    {
        match self.inner.take() {
            None => None,
            Some(mut st) => {
                let ghost target = spec_expand(st.members@.skip(st.pos as int), st.frame);
                let mut result: Option<StackFrame> = None;
                while st.pos < st.members.len() && result.is_none()
                    invariant
                        st.pos <= st.members@.len(),
                        forall|i: int|
                            0 <= i < st.members@.len() ==> member_ok(#[trigger] st.members@[i]),
                        match result {
                            None => spec_expand(st.members@.skip(st.pos as int), st.frame)
                                == target,
                            Some(f) => target.len() > 0 && f == target[0] && spec_expand(
                                st.members@.skip(st.pos as int),
                                st.frame,
                            ) == target.drop_first(),
                        },
                    decreases st.members@.len() - st.pos,
                {
                    proof {
                        assert(st.members@.skip(st.pos as int)[0] == st.members@[st.pos as int]);
                        assert(st.members@.skip(st.pos as int).drop_first() =~= st.members@.skip(
                            st.pos as int + 1,
                        ));
                    }
                    let m = &st.members[st.pos];
                    if m.endline > 0 && (st.frame.line < m.startline || st.frame.line > m.endline) {
                        st.pos = st.pos + 1;
                    } else {
                        let line: usize = if m.original_endline.is_some() {
                            m.original_startline + (st.frame.line - m.startline)
                        } else {
                            m.original_startline
                        };
                        let file: Option<String> = if m.original_class.is_some() {
                            None
                        } else {
                            clone_opt_string(&st.frame.file)
                        };
                        let class: String = match &m.original_class {
                            Some(c) => c.clone(),
                            None => st.frame.class.clone(),
                        };
                        let out = StackFrame { class, method: m.original.clone(), file, line };
                        proof {
                            assert(out == remapped_frame(st.members@[st.pos as int], st.frame));
                        }
                        result = Some(out);
                        st.pos = st.pos + 1;
                    }
                }
                proof {
                    if st.pos >= st.members@.len() {
                        assert(st.members@.skip(st.pos as int) =~= Seq::<MemberMapping>::empty());
                    }
                }
                self.inner = Some(st);
                result
            }
        }
    }
}

} // verus!
