//! The status database: parsing the package manager's status file and its
//! incremental updates into per-port records, and assembling the mapping from
//! port name to [`Port`] for one target triplet.
use vstd::prelude::*;
use vstd::pervasive::VecAdditionalExecFns;

use crate::error::Error;
use crate::install_tree::InstallTree;
use crate::install_tree::InstallTreeView;
use crate::install_tree::NamedFile;
use crate::install_tree::NamedFileView;
use crate::install_tree::PcDirView;
use crate::install_tree::PcTextView;
use crate::pc_file::PcFileView;
use crate::pc_file::add_record;
use crate::pc_file::pc_deps;
use crate::pc_file::pc_libs;
use crate::pc_file::spec_refine;
use crate::port::Port;
use crate::port::PortView;
use crate::target_triplet::TripletView;
use crate::text::first_match;
use crate::text::lex_le;
use crate::text::seq_views;
use crate::text::spec_ends_with;
use crate::text::spec_lines;
use crate::text::spec_split;
use crate::text::spec_starts_with;
use crate::text::spec_trim;
use crate::vcpkg_target::VcpkgTarget;

verus! {

/// One parsed paragraph of a status file: only the recognized keys are kept,
/// the last `key: value` line of a paragraph winning for its key. `keyed`
/// records whether any `key: value` line was seen at all.
#[derive(Debug)]
pub struct Paragraph {
    pub package: Option<String>,
    pub architecture: Option<String>,
    pub feature: Option<String>,
    pub status: Option<String>,
    pub version: Option<String>,
    pub depends: Option<String>,
    pub keyed: bool,
}

/// The mathematical content of a [`Paragraph`].
pub struct ParagraphView {
    pub package: Option<Seq<char>>,
    pub architecture: Option<Seq<char>>,
    pub feature: Option<Seq<char>>,
    pub status: Option<Seq<char>>,
    pub version: Option<Seq<char>>,
    pub depends: Option<Seq<char>>,
    pub keyed: bool,
}

pub open spec fn opt_view(o: Option<String>) -> Option<Seq<char>> {
    match o {
        Some(s) => Some(s@),
        None => None,
    }
}

impl View for Paragraph {
    type V = ParagraphView;

    open spec fn view(&self) -> ParagraphView {
        ParagraphView {
            package: opt_view(self.package),
            architecture: opt_view(self.architecture),
            feature: opt_view(self.feature),
            status: opt_view(self.status),
            version: opt_view(self.version),
            depends: opt_view(self.depends),
            keyed: self.keyed,
        }
    }
}

pub open spec fn empty_para() -> ParagraphView {
    ParagraphView {
        package: None,
        architecture: None,
        feature: None,
        status: None,
        version: None,
        depends: None,
        keyed: false,
    }
}

/// One recognized `key: value` line applied to a paragraph under parse.
pub open spec fn set_field(p: ParagraphView, key: Seq<char>, value: Seq<char>) -> ParagraphView {
    ParagraphView {
        package: if key == "Package"@ {
            Some(value)
        } else {
            p.package
        },
        architecture: if key == "Architecture"@ {
            Some(value)
        } else {
            p.architecture
        },
        feature: if key == "Feature"@ {
            Some(value)
        } else {
            p.feature
        },
        status: if key == "Status"@ {
            Some(value)
        } else {
            p.status
        },
        version: if key == "Version"@ {
            Some(value)
        } else {
            p.version
        },
        depends: if key == "Depends"@ {
            Some(value)
        } else {
            p.depends
        },
        keyed: true,
    }
}

/// A line applied to a paragraph: a `key: value` line sets its key, with key
/// and value trimmed; any other non-blank line is an extension line and is
/// ignored.
pub open spec fn apply_line(p: ParagraphView, line: Seq<char>) -> ParagraphView {
    match first_match(line, seq![':', ' ']) {
        Some(i) => set_field(
            p,
            spec_trim(line.subrange(0, i)),
            spec_trim(line.subrange(i + 2, line.len() as int)),
        ),
        None => p,
    }
}

/// Parsing of status-file lines into paragraphs: blank lines end a paragraph,
/// and an unterminated trailing paragraph at end of file is still captured.
pub open spec fn parse_status_lines(lines: Seq<Seq<char>>, cur: ParagraphView) -> Seq<
    ParagraphView,
>
    decreases lines.len(),
{
    if lines.len() == 0 {
        if cur.keyed {
            seq![cur]
        } else {
            Seq::empty()
        }
    } else if lines[0].len() == 0 {
        seq![cur] + parse_status_lines(lines.drop_first(), empty_para())
    } else {
        parse_status_lines(lines.drop_first(), apply_line(cur, lines[0]))
    }
}

pub open spec fn parse_status_file(lines: Seq<Seq<char>>) -> Seq<ParagraphView> {
    parse_status_lines(lines, empty_para())
}

/// Applies one line to the paragraph under parse.
fn apply_line_exec(p: &mut Paragraph, line: &str)
    ensures
        final(p)@ == apply_line(old(p)@, line@),
{
    let sep = ": ";
    proof {
        reveal_strlit(": ");
        assert(sep@ =~= seq![':', ' ']);
    }
    match crate::text::find_sub(line, sep) {
        Some(i) => {
            proof {
                crate::text::lemma_first_match(line@, seq![':', ' ']);
            }
            let llen = line.unicode_len();
            let key = crate::text::trim_str(line.substring_char(0, i));
            let value = crate::text::trim_str(line.substring_char(i + 2, llen));
            let is_package = crate::text::str_eq(key, "Package");
            let is_architecture = crate::text::str_eq(key, "Architecture");
            let is_feature = crate::text::str_eq(key, "Feature");
            let is_status = crate::text::str_eq(key, "Status");
            let is_version = crate::text::str_eq(key, "Version");
            let is_depends = crate::text::str_eq(key, "Depends");
            p.keyed = true;
            if is_package {
                p.package = Some(String::from_str(value));
            }
            if is_architecture {
                p.architecture = Some(String::from_str(value));
            }
            if is_feature {
                p.feature = Some(String::from_str(value));
            }
            if is_status {
                p.status = Some(String::from_str(value));
            }
            if is_version {
                p.version = Some(String::from_str(value));
            }
            if is_depends {
                p.depends = Some(String::from_str(value));
            }
        },
        None => {},
    }
}

fn empty_para_exec() -> (r: Paragraph)
    ensures
        r@ == empty_para(),
{
    Paragraph {
        package: None,
        architecture: None,
        feature: None,
        status: None,
        version: None,
        depends: None,
        keyed: false,
    }
}

/// Parses the lines of one status file (or update file), appending its
/// paragraphs to `out`.
pub fn load_status_lines(lines: &Vec<String>, out: &mut Vec<Paragraph>)
    ensures
        para_views(final(out)@) == para_views(old(out)@) + parse_status_file(seq_views(lines@)),
{
    let ghost lviews = seq_views(lines@);
    let ghost base = para_views(out@);
    let n = lines.len();
    let mut k: usize = 0;
    let mut cur = empty_para_exec();
    proof {
        assert(lviews.skip(0) =~= lviews);
    }
    while k < n
        invariant
            n == lines@.len(),
            lviews == seq_views(lines@),
            k <= n,
            base + parse_status_file(lviews) =~= para_views(out@) + parse_status_lines(
                lviews.skip(k as int),
                cur@,
            ),
        decreases n - k,
    {
        let ghost prev = para_views(out@);
        proof {
            assert(lviews.skip(k as int)[0] == lviews[k as int]);
            assert(lviews.skip(k as int).drop_first() =~= lviews.skip(k + 1));
        }
        let line: &String = &lines[k];
        if line.as_str().unicode_len() == 0 {
            out.push(cur);
            cur = empty_para_exec();
            proof {
                assert(para_views(out@) =~= prev.push(out@.last()@));
            }
        } else {
            apply_line_exec(&mut cur, line.as_str());
        }
        k += 1;
    }
    if cur.keyed {
        let ghost prev = para_views(out@);
        out.push(cur);
        proof {
            assert(lviews.skip(n as int) =~= Seq::<Seq<char>>::empty());
            assert(para_views(out@) =~= prev.push(out@.last()@));
        }
    } else {
        proof {
            assert(lviews.skip(n as int) =~= Seq::<Seq<char>>::empty());
            assert(para_views(out@) + parse_status_lines(
                Seq::<Seq<char>>::empty(),
                cur@,
            ) =~= para_views(out@));
        }
    }
}

/// The views of a sequence of paragraphs.
pub open spec fn para_views(ps: Seq<Paragraph>) -> Seq<ParagraphView> {
    ps.map_values(|p: Paragraph| p@)
}

/// A paragraph that names a package and an architecture and so enters the
/// record mapping.
pub open spec fn para_has_key(p: ParagraphView) -> bool {
    p.package is Some && p.architecture is Some
}

/// Equality of record keys: package, architecture and feature.
pub open spec fn key_eq(a: ParagraphView, b: ParagraphView) -> bool {
    a.package == b.package && a.architecture == b.architecture && a.feature == b.feature
}

pub open spec fn feature_lt(a: Option<Seq<char>>, b: Option<Seq<char>>) -> bool {
    match (a, b) {
        (Option::None, Option::Some(_)) => true,
        (Option::Some(x), Option::Some(y)) => lex_le(x, y) && x != y,
        _ => false,
    }
}

/// Strict order on record keys: by package, then architecture, then feature,
/// a record without a feature before all records with one.
pub open spec fn key_lt(a: ParagraphView, b: ParagraphView) -> bool {
    let ap = a.package->Some_0;
    let bp = b.package->Some_0;
    let aa = a.architecture->Some_0;
    let ba = b.architecture->Some_0;
    if ap != bp {
        lex_le(ap, bp)
    } else if aa != ba {
        lex_le(aa, ba)
    } else {
        feature_lt(a.feature, b.feature)
    }
}

/// Insertion into a key-sorted record list: a record under a key already
/// present replaces the earlier record (later paragraphs silently override
/// earlier ones), any other record takes its place in key order.
pub open spec fn insert_para(sorted: Seq<ParagraphView>, p: ParagraphView) -> Seq<ParagraphView>
    decreases sorted.len(),
{
    if sorted.len() == 0 {
        seq![p]
    } else if key_eq(p, sorted[0]) {
        seq![p] + sorted.drop_first()
    } else if key_lt(p, sorted[0]) {
        seq![p] + sorted
    } else {
        seq![sorted[0]] + insert_para(sorted.drop_first(), p)
    }
}

/// The keyed paragraphs arranged by key, later paragraphs replacing earlier
/// ones under the same key; paragraphs without a key are dropped.
pub open spec fn sort_paras(ps: Seq<ParagraphView>) -> Seq<ParagraphView>
    decreases ps.len(),
{
    if ps.len() == 0 {
        Seq::empty()
    } else {
        let prev = sort_paras(ps.drop_last());
        if para_has_key(ps.last()) {
            insert_para(prev, ps.last())
        } else {
            prev
        }
    }
}

fn opt_str_eq(a: &Option<String>, b: &Option<String>) -> (r: bool)
    ensures
        r == (opt_view(*a) == opt_view(*b)),
{
    match (a, b) {
        (Option::Some(x), Option::Some(y)) => crate::text::str_eq(x.as_str(), y.as_str()),
        (Option::None, Option::None) => true,
        _ => false,
    }
}

fn key_eq_exec(a: &Paragraph, b: &Paragraph) -> (r: bool)
    ensures
        r == key_eq(a@, b@),
{
    opt_str_eq(&a.package, &b.package) && opt_str_eq(&a.architecture, &b.architecture)
        && opt_str_eq(&a.feature, &b.feature)
}

fn feature_lt_exec(a: &Option<String>, b: &Option<String>) -> (r: bool)
    ensures
        r == feature_lt(opt_view(*a), opt_view(*b)),
{
    match (a, b) {
        (Option::None, Option::Some(_)) => true,
        (Option::Some(x), Option::Some(y)) => crate::text::str_le(x.as_str(), y.as_str())
            && !crate::text::str_eq(x.as_str(), y.as_str()),
        _ => false,
    }
}

fn key_lt_exec(a: &Paragraph, b: &Paragraph) -> (r: bool)
    requires
        para_has_key(a@),
        para_has_key(b@),
    ensures
        r == key_lt(a@, b@),
{
    let ap = a.package.as_ref().unwrap();
    let bp = b.package.as_ref().unwrap();
    if !crate::text::str_eq(ap.as_str(), bp.as_str()) {
        crate::text::str_le(ap.as_str(), bp.as_str())
    } else {
        let aa = a.architecture.as_ref().unwrap();
        let ba = b.architecture.as_ref().unwrap();
        if !crate::text::str_eq(aa.as_str(), ba.as_str()) {
            crate::text::str_le(aa.as_str(), ba.as_str())
        } else {
            feature_lt_exec(&a.feature, &b.feature)
        }
    }
}

proof fn lemma_insert_para_found(sorted: Seq<ParagraphView>, p: ParagraphView, i: int)
    requires
        0 <= i <= sorted.len(),
        forall|j: int| 0 <= j < i ==> !key_eq(p, sorted[j]) && !key_lt(p, sorted[j]),
    ensures
        i < sorted.len() && key_eq(p, sorted[i]) ==> insert_para(sorted, p) == sorted.update(i, p),
        (i < sorted.len() && !key_eq(p, sorted[i]) && key_lt(p, sorted[i])) ==> insert_para(
            sorted,
            p,
        ) == sorted.insert(i, p),
        i == sorted.len() ==> insert_para(sorted, p) == sorted.push(p),
    decreases sorted.len(),
{
    if i == 0 {
        if 0 < sorted.len() && key_eq(p, sorted[0]) {
            assert(insert_para(sorted, p) =~= sorted.update(0, p));
        } else if 0 < sorted.len() && key_lt(p, sorted[0]) {
            assert(insert_para(sorted, p) =~= sorted.insert(0, p));
        } else if sorted.len() == 0 {
            assert(insert_para(sorted, p) =~= sorted.push(p));
        }
    } else {
        let t = sorted.drop_first();
        assert(forall|j: int| 0 <= j < i - 1 ==> t[j] == sorted[j + 1]);
        lemma_insert_para_found(t, p, i - 1);
        if i < sorted.len() && key_eq(p, sorted[i]) {
            assert(t[i - 1] == sorted[i]);
            assert(insert_para(sorted, p) =~= sorted.update(i, p));
        } else if i < sorted.len() && !key_eq(p, sorted[i]) && key_lt(p, sorted[i]) {
            assert(t[i - 1] == sorted[i]);
            assert(insert_para(sorted, p) =~= sorted.insert(i, p));
        } else if i == sorted.len() {
            assert(insert_para(sorted, p) =~= sorted.push(p));
        }
    }
}

/// Inserts one keyed paragraph into the key-sorted list.
fn insert_para_exec(sorted: &mut Vec<Paragraph>, p: Paragraph)
    requires
        para_has_key(p@),
        forall|j: int| 0 <= j < old(sorted)@.len() ==> para_has_key(
            #[trigger] para_views(old(sorted)@)[j],
        ),
    ensures
        para_views(final(sorted)@) == insert_para(para_views(old(sorted)@), p@),
        forall|j: int| 0 <= j < final(sorted)@.len() ==> para_has_key(
            #[trigger] para_views(final(sorted)@)[j],
        ),
{
    let ghost sviews = para_views(sorted@);
    let n = sorted.len();
    let mut i: usize = 0;
    while i < n
        invariant
            n == sorted@.len(),
            sorted@ == old(sorted)@,
            sviews == para_views(sorted@),
            para_has_key(p@),
            forall|j: int| 0 <= j < n ==> para_has_key(#[trigger] sviews[j]),
            i <= n,
            forall|j: int| 0 <= j < i ==> !key_eq(p@, sviews[j]) && !key_lt(p@, sviews[j]),
        decreases n - i,
    {
        assert(sviews[i as int] == sorted@[i as int]@);
        if key_eq_exec(&p, &sorted[i]) {
            proof {
                lemma_insert_para_found(sviews, p@, i as int);
            }
            sorted.set(i, p);
            proof {
                assert(para_views(sorted@) =~= sviews.update(i as int, p@));
                assert(forall|j: int|
                    0 <= j < sorted@.len() ==> para_has_key(
                        #[trigger] para_views(sorted@)[j],
                    ));
            }
            return ;
        }
        if key_lt_exec(&p, &sorted[i]) {
            proof {
                lemma_insert_para_found(sviews, p@, i as int);
            }
            sorted.insert(i, p);
            proof {
                assert(para_views(sorted@) =~= sviews.insert(i as int, p@));
                assert(forall|j: int|
                    0 <= j < sorted@.len() ==> para_has_key(
                        #[trigger] para_views(sorted@)[j],
                    ));
            }
            return ;
        }
        i += 1;
    }
    proof {
        lemma_insert_para_found(sviews, p@, n as int);
    }
    sorted.push(p);
    proof {
        assert(para_views(sorted@) =~= sviews.push(p@));
        assert(forall|j: int|
            0 <= j < sorted@.len() ==> para_has_key(#[trigger] para_views(sorted@)[j]));
    }
}

/// Arranges the keyed paragraphs by (package, architecture, feature), the
/// last paragraph seen for a key replacing every earlier one; paragraphs
/// without both a package and an architecture are dropped.
pub fn sort_keyed_paras(mut ps: Vec<Paragraph>) -> (r: Vec<Paragraph>)
    ensures
        para_views(r@) == sort_paras(para_views(ps@)),
        forall|j: int| 0 <= j < r@.len() ==> para_has_key(#[trigger] para_views(r@)[j]),
{
    let ghost pviews = para_views(ps@);
    let mut out: Vec<Paragraph> = Vec::new();
    let n = ps.len();
    let mut k: usize = 0;
    proof {
        assert(para_views(out@) =~= Seq::<ParagraphView>::empty());
        assert(pviews.take(0) =~= Seq::<ParagraphView>::empty());
    }
    while k < n
        invariant
            n == ps@.len(),
            ps@.len() == n,
            pviews == para_views(ps@),
            k <= n,
            para_views(out@) == sort_paras(pviews.take(k as int)),
            forall|j: int| 0 <= j < out@.len() ==> para_has_key(#[trigger] para_views(out@)[j]),
        decreases n - k,
    {
        proof {
            assert(pviews.take(k + 1).drop_last() =~= pviews.take(k as int));
            assert(pviews.take(k + 1).last() == pviews[k as int]);
            assert(pviews[k as int] == ps@[k as int]@);
        }
        let has_pkg = ps[k].package.is_some();
        let has_arch = ps[k].architecture.is_some();
        if has_pkg && has_arch {
            let p = clone_para(&ps[k]);
            insert_para_exec(&mut out, p);
        }
        k += 1;
    }
    proof {
        assert(pviews.take(n as int) =~= pviews);
    }
    out
}

/// A field-for-field copy of a paragraph.
fn clone_para(p: &Paragraph) -> (r: Paragraph)
    ensures
        r@ == p@,
{
    Paragraph {
        package: clone_opt_string(&p.package),
        architecture: clone_opt_string(&p.architecture),
        feature: clone_opt_string(&p.feature),
        status: clone_opt_string(&p.status),
        version: clone_opt_string(&p.version),
        depends: clone_opt_string(&p.depends),
        keyed: p.keyed,
    }
}

fn clone_opt_string(o: &Option<String>) -> (r: Option<String>)
    ensures
        opt_view(r) == opt_view(*o),
{
    match o {
        Some(s) => Some(s.clone()),
        None => None,
    }
}

/// One entry of the port mapping.
#[derive(Debug)]
pub struct PortEntry {
    pub name: String,
    pub port: Port,
}

/// The mathematical content of a [`PortEntry`].
pub struct PortEntryView {
    pub name: Seq<char>,
    pub port: PortView,
}

impl View for PortEntry {
    type V = PortEntryView;

    open spec fn view(&self) -> PortEntryView {
        PortEntryView { name: self.name@, port: self.port@ }
    }
}

/// The mapping from port name to [`Port`] for one target, as an association
/// list with one entry per name.
#[derive(Debug)]
pub struct PortsDb {
    pub entries: Vec<PortEntry>,
}

impl View for PortsDb {
    type V = Seq<PortEntryView>;

    open spec fn view(&self) -> Seq<PortEntryView> {
        self.entries@.map_values(|e: PortEntry| e@)
    }
}

/// Index of the first entry of the given name.
pub open spec fn port_idx(db: Seq<PortEntryView>, name: Seq<char>) -> Option<int>
    decreases db.len(),
{
    if db.len() == 0 {
        None
    } else if db[0].name == name {
        Some(0int)
    } else {
        match port_idx(db.drop_first(), name) {
            Some(i) => Some(i + 1),
            None => None,
        }
    }
}

pub proof fn lemma_port_idx(db: Seq<PortEntryView>, name: Seq<char>)
    ensures
        match port_idx(db, name) {
            Some(i) => 0 <= i < db.len() && db[i].name == name && (forall|j: int|
                0 <= j < i ==> db[j].name != name),
            None => forall|j: int| 0 <= j < db.len() ==> db[j].name != name,
        },
    decreases db.len(),
{
    if db.len() > 0 && db[0].name != name {
        lemma_port_idx(db.drop_first(), name);
        let t = db.drop_first();
        match port_idx(t, name) {
            Some(i) => {
                assert(db[i + 1] == t[i]);
                assert forall|j: int| 0 <= j < i + 1 implies db[j].name != name by {
                    if j > 0 {
                        assert(t[j - 1] == db[j]);
                    }
                }
            },
            None => {
                assert forall|j: int| 0 <= j < db.len() implies db[j].name != name by {
                    if j > 0 {
                        assert(t[j - 1] == db[j]);
                    }
                }
            },
        }
    }
}

/// The port of the given name, if the mapping holds one.
pub open spec fn port_lookup(db: Seq<PortEntryView>, name: Seq<char>) -> Option<PortView> {
    match port_idx(db, name) {
        Some(i) => Some(db[i].port),
        None => None,
    }
}

/// Inserting under map semantics: an entry of the same name is overwritten.
pub open spec fn insert_port(db: Seq<PortEntryView>, name: Seq<char>, port: PortView) -> Seq<
    PortEntryView,
> {
    match port_idx(db, name) {
        Some(i) => db.update(i, PortEntryView { name, port }),
        None => db.push(PortEntryView { name, port }),
    }
}

/// Appends dependencies to an already-constructed port; a name with no port
/// (an orphan feature record) changes nothing.
pub open spec fn append_port_deps(
    db: Seq<PortEntryView>,
    name: Seq<char>,
    extra: Seq<Seq<char>>,
) -> Seq<PortEntryView> {
    match port_idx(db, name) {
        Some(i) => db.update(
            i,
            PortEntryView {
                name: db[i].name,
                port: PortView {
                    dlls: db[i].port.dlls,
                    libs: db[i].port.libs,
                    deps: db[i].port.deps + extra,
                },
            },
        ),
        None => db,
    }
}

impl PortsDb {
    /// An empty mapping.
    pub fn new() -> (r: PortsDb)
        ensures
            r@ == Seq::<PortEntryView>::empty(),
    {
        let r = PortsDb { entries: Vec::new() };
        proof {
            assert(r@ =~= Seq::<PortEntryView>::empty());
        }
        r
    }

    /// Looks a port up by name.
    pub fn get<'a>(&'a self, name: &str) -> (r: Option<&'a Port>)
        ensures
            match r {
                Some(p) => port_lookup(self@, name@) == Some(p@),
                None => port_lookup(self@, name@) is None,
            },
    {
        let n = self.entries.len();
        let mut i: usize = 0;
        while i < n
            invariant
                n == self.entries@.len(),
                i <= n,
                forall|j: int| 0 <= j < i ==> self@[j].name != name@,
            decreases n - i,
        {
            if crate::text::str_eq(self.entries[i].name.as_str(), name) {
                proof {
                    assert(self@[i as int].name == name@);
                    lemma_port_idx(self@, name@);
                    match port_idx(self@, name@) {
                        Some(k) => {
                            assert(!(k < i) && !(i < k));
                        },
                        None => {},
                    }
                }
                return Some(&self.entries[i].port);
            }
            assert(self@[i as int].name != name@);
            i += 1;
        }
        proof {
            lemma_port_idx(self@, name@);
            if port_idx(self@, name@) is Some {
                let k = port_idx(self@, name@)->Some_0;
                assert(self@[k].name == name@);
            }
        }
        None
    }

    /// Inserts a port, overwriting an entry of the same name.
    pub fn insert(&mut self, name: String, port: Port)
        ensures
            final(self)@ == insert_port(old(self)@, name@, port@),
    {
        let ghost dviews = self@;
        let n = self.entries.len();
        let mut i: usize = 0;
        while i < n
            invariant
                n == self.entries@.len(),
                self.entries@ == old(self).entries@,
                dviews == self@,
                i <= n,
                forall|j: int| 0 <= j < i ==> dviews[j].name != name@,
            decreases n - i,
        {
            if crate::text::str_eq(self.entries[i].name.as_str(), name.as_str()) {
                proof {
                    assert(dviews[i as int].name == name@);
                    lemma_port_idx(dviews, name@);
                    match port_idx(dviews, name@) {
                        Some(k) => {
                            assert(!(k < i) && !(i < k));
                        },
                        None => {},
                    }
                }
                self.entries.set(i, PortEntry { name, port });
                proof {
                    assert(self@ =~= dviews.update(
                        i as int,
                        PortEntryView { name: name@, port: port@ },
                    ));
                }
                return ;
            }
            assert(dviews[i as int].name != name@);
            i += 1;
        }
        proof {
            lemma_port_idx(dviews, name@);
            if port_idx(dviews, name@) is Some {
                let k = port_idx(dviews, name@)->Some_0;
                assert(dviews[k].name == name@);
            }
        }
        self.entries.push(PortEntry { name, port });
        proof {
            assert(self@ =~= dviews.push(PortEntryView { name: name@, port: port@ }));
        }
    }

    /// Appends dependencies to the port of the given name; without such a
    /// port nothing changes and loading goes on (an orphan feature record is
    /// not fatal).
    pub fn append_deps(&mut self, name: &str, extra: &Vec<String>)
        ensures
            final(self)@ == append_port_deps(old(self)@, name@, seq_views(extra@)),
    {
        let ghost dviews = self@;
        let n = self.entries.len();
        let mut i: usize = 0;
        while i < n
            invariant
                n == self.entries@.len(),
                self.entries@ == old(self).entries@,
                dviews == self@,
                i <= n,
                forall|j: int| 0 <= j < i ==> dviews[j].name != name@,
            decreases n - i,
        {
            if crate::text::str_eq(self.entries[i].name.as_str(), name) {
                proof {
                    assert(dviews[i as int].name == name@);
                    lemma_port_idx(dviews, name@);
                    match port_idx(dviews, name@) {
                        Some(k) => {
                            assert(!(k < i) && !(i < k));
                        },
                        None => {},
                    }
                }
                let entry: &PortEntry = &self.entries[i];
                let mut new_deps = crate::text::clone_string_vec(&entry.port.deps);
                let ghost base_deps = seq_views(new_deps@);
                let m = extra.len();
                let mut j: usize = 0;
                while j < m
                    invariant
                        m == extra@.len(),
                        j <= m,
                        seq_views(new_deps@) =~= base_deps + seq_views(extra@).take(j as int),
                    decreases m - j,
                {
                    let ghost prev = seq_views(new_deps@);
                    new_deps.push(extra[j].clone());
                    proof {
                        assert(seq_views(new_deps@) =~= prev.push(extra@[j as int]@));
                        assert(seq_views(extra@).take(j + 1) =~= seq_views(extra@).take(
                            j as int,
                        ).push(seq_views(extra@)[j as int]));
                    }
                    j += 1;
                }
                proof {
                    assert(seq_views(extra@).take(m as int) =~= seq_views(extra@));
                }
                let new_entry = PortEntry {
                    name: self.entries[i].name.clone(),
                    port: Port {
                        dlls: crate::text::clone_string_vec(&self.entries[i].port.dlls),
                        libs: crate::text::clone_string_vec(&self.entries[i].port.libs),
                        deps: new_deps,
                    },
                };
                proof {
                    assert(new_entry@.port.dlls =~= dviews[i as int].port.dlls);
                    assert(new_entry@.port.libs =~= dviews[i as int].port.libs);
                }
                self.entries.set(i, new_entry);
                proof {
                    assert(self@ =~= append_port_deps(dviews, name@, seq_views(extra@)));
                }
                return ;
            }
            assert(dviews[i as int].name != name@);
            i += 1;
        }
        proof {
            lemma_port_idx(dviews, name@);
            if port_idx(dviews, name@) is Some {
                let k = port_idx(dviews, name@)->Some_0;
                assert(dviews[k].name == name@);
            }
            assert(self@ =~= append_port_deps(dviews, name@, seq_views(extra@)));
        }
    }
}

/// A file name of exactly one path component carrying the given suffix, with
/// a non-empty stem.
pub open spec fn single_component_with_suffix(rest: Seq<char>, suffix: Seq<char>) -> bool {
    rest.len() > suffix.len() && spec_ends_with(rest, suffix) && !rest.contains('/')
}

/// The shared library a manifest line contributes: the line under the
/// target's binary directory whose remainder is one `.dll` file name.
pub open spec fn manifest_dll(line: Seq<char>, t: TripletView) -> Option<Seq<char>> {
    let pre = t.triplet + "/bin/"@;
    if spec_starts_with(line, pre) && single_component_with_suffix(
        line.skip(pre.len() as int),
        ".dll"@,
    ) {
        Some(line.skip(pre.len() as int))
    } else {
        None
    }
}

/// The static or import library a manifest line contributes: a line not under
/// the binary directory, under the target's library directory, whose
/// remainder is one file name with the target's library suffix.
pub open spec fn manifest_lib(line: Seq<char>, t: TripletView) -> Option<Seq<char>> {
    let bin_pre = t.triplet + "/bin/"@;
    let pre = t.triplet + "/lib/"@;
    let suffix = seq!['.'] + t.lib_suffix;
    if !spec_starts_with(line, bin_pre) && spec_starts_with(line, pre)
        && single_component_with_suffix(line.skip(pre.len() as int), suffix) {
        Some(line.skip(pre.len() as int))
    } else {
        None
    }
}

pub open spec fn manifest_dlls(lines: Seq<Seq<char>>, t: TripletView) -> Seq<Seq<char>>
    decreases lines.len(),
{
    if lines.len() == 0 {
        Seq::empty()
    } else {
        (match manifest_dll(lines[0], t) {
            Some(d) => seq![d],
            None => Seq::empty(),
        }) + manifest_dlls(lines.drop_first(), t)
    }
}

pub open spec fn manifest_raw_libs(lines: Seq<Seq<char>>, t: TripletView) -> Seq<Seq<char>>
    decreases lines.len(),
{
    if lines.len() == 0 {
        Seq::empty()
    } else {
        (match manifest_lib(lines[0], t) {
            Some(l) => seq![l],
            None => Seq::empty(),
        }) + manifest_raw_libs(lines.drop_first(), t)
    }
}

/// The metadata records of one port's metadata files, under map semantics.
pub open spec fn pc_records(texts: Seq<PcTextView>, t: TripletView) -> Seq<PcFileView>
    decreases texts.len(),
{
    if texts.len() == 0 {
        Seq::empty()
    } else {
        add_record(pc_records(texts.drop_last(), t), parse_pc_view(texts.last(), t))
    }
}

/// What one metadata file parses to.
pub open spec fn parse_pc_view(x: PcTextView, t: TripletView) -> PcFileView {
    PcFileView {
        id: x.id,
        libs: pc_libs(spec_lines(x.text), t),
        deps: pc_deps(spec_lines(x.text)),
    }
}

/// The first metadata directory with the given key, if any.
pub open spec fn find_pc_dir(dirs: Seq<PcDirView>, key: Seq<char>) -> Option<PcDirView>
    decreases dirs.len(),
{
    if dirs.len() == 0 {
        None
    } else if dirs[0].key == key {
        Some(dirs[0])
    } else {
        find_pc_dir(dirs.drop_first(), key)
    }
}

/// The first manifest file with the given name, if any.
pub open spec fn find_manifest(ms: Seq<NamedFileView>, name: Seq<char>) -> Option<NamedFileView>
    decreases ms.len(),
{
    if ms.len() == 0 {
        None
    } else if ms[0].name == name {
        Some(ms[0])
    } else {
        find_manifest(ms.drop_first(), name)
    }
}

/// The deterministic file name of a port's installed-file manifest.
pub open spec fn manifest_file_name(
    port: Seq<char>,
    version: Seq<char>,
    triplet: Seq<char>,
) -> Seq<char> {
    port + "_"@ + version + "_"@ + triplet + ".list"@
}

/// What reading a port's manifest yields: its shared libraries and its
/// static/import libraries, the latter reordered by the port's metadata
/// records when the port has a metadata directory. `None` when the manifest
/// file is missing, which is fatal for the port.
pub open spec fn spec_port_manifest(
    tree: InstallTreeView,
    t: TripletView,
    port: Seq<char>,
    version: Seq<char>,
) -> Option<(Seq<Seq<char>>, Seq<Seq<char>>)> {
    let fname = manifest_file_name(port, version, t.triplet);
    match find_manifest(tree.manifests, fname) {
        Some(m) => {
            let dlls = manifest_dlls(m.lines, t);
            let libs = manifest_raw_libs(m.lines, t);
            let key = port + "_"@ + t.triplet;
            let libs2 = match find_pc_dir(tree.pc_dirs, key) {
                Some(d) => spec_refine(pc_records(d.files, t), libs),
                None => libs,
            };
            Some((dlls, libs2))
        },
        None => None,
    }
}

/// A status value that counts as installed.
pub open spec fn status_installed(s: Option<Seq<char>>) -> bool {
    match s {
        Some(v) => spec_ends_with(v, " installed"@),
        None => false,
    }
}

/// The dependency names a `Depends` field declares.
pub open spec fn para_deps(d: Option<Seq<char>>) -> Seq<Seq<char>> {
    match d {
        Some(v) => spec_split(v, ", "@),
        None => Seq::empty(),
    }
}

/// One record applied to the mapping under construction: only records of the
/// target's architecture with an installed status count; a record with a
/// version constructs the port from its manifest (a missing manifest is
/// fatal, the error carrying the manifest's file name); a versionless feature
/// record appends its dependencies to the already-constructed port, an orphan
/// one changing nothing; anything else is skipped.
pub open spec fn build_step(
    db: Seq<PortEntryView>,
    p: ParagraphView,
    tree: InstallTreeView,
    t: TripletView,
) -> Result<Seq<PortEntryView>, Seq<char>> {
    if p.architecture != Some(t.triplet) {
        Ok(db)
    } else if !status_installed(p.status) {
        Ok(db)
    } else {
        let deps = para_deps(p.depends);
        let name = p.package->Some_0;
        if p.version is Some {
            match spec_port_manifest(tree, t, name, p.version->Some_0) {
                Some(dl) => Ok(insert_port(db, name, PortView { dlls: dl.0, libs: dl.1, deps })),
                None => Err(manifest_file_name(name, p.version->Some_0, t.triplet)),
            }
        } else if p.feature is Some {
            Ok(append_port_deps(db, name, deps))
        } else {
            Ok(db)
        }
    }
}

pub open spec fn spec_build_ports(
    paras: Seq<ParagraphView>,
    tree: InstallTreeView,
    t: TripletView,
) -> Result<Seq<PortEntryView>, Seq<char>>
    decreases paras.len(),
{
    if paras.len() == 0 {
        Ok(Seq::empty())
    } else {
        match spec_build_ports(paras.drop_last(), tree, t) {
            Ok(db) => build_step(db, paras.last(), tree, t),
            Err(e) => Err(e),
        }
    }
}

/// A record the loader passes over where the original logged: it matches the
/// target and counts as installed, but carries no version — either a feature
/// record whose base port was never constructed (an orphan), or a record of
/// no known shape.
pub open spec fn skip_step(db: Seq<PortEntryView>, p: ParagraphView, t: TripletView) -> bool {
    &&& p.architecture == Some(t.triplet)
    &&& status_installed(p.status)
    &&& p.version is None
    &&& (match p.feature {
        Some(_) => port_idx(db, p.package->Some_0) is None,
        None => true,
    })
}

/// The records the loader's fold passes over, in fold order; a fatal fold
/// ends the collection where it ends the fold.
pub open spec fn spec_skipped_records(
    paras: Seq<ParagraphView>,
    tree: InstallTreeView,
    t: TripletView,
) -> Seq<ParagraphView>
    decreases paras.len(),
{
    if paras.len() == 0 {
        Seq::empty()
    } else {
        let prev = spec_skipped_records(paras.drop_last(), tree, t);
        match spec_build_ports(paras.drop_last(), tree, t) {
            Ok(db) => prev + (if skip_step(db, paras.last(), t) {
                seq![paras.last()]
            } else {
                Seq::empty()
            }),
            Err(_) => prev,
        }
    }
}

proof fn lemma_skipped_err_persists(
    paras: Seq<ParagraphView>,
    tree: InstallTreeView,
    t: TripletView,
    k: int,
)
    requires
        0 <= k <= paras.len(),
        spec_build_ports(paras.take(k), tree, t) is Err,
    ensures
        spec_skipped_records(paras, tree, t) == spec_skipped_records(paras.take(k), tree, t),
    decreases paras.len() - k,
{
    if k < paras.len() {
        assert(paras.take(k + 1).drop_last() =~= paras.take(k));
        lemma_build_err_persists(paras, tree, t, k);
        lemma_skipped_err_persists(paras, tree, t, k + 1);
    } else {
        assert(paras.take(k) =~= paras);
    }
}

/// Collects the status records the loader passes over for this target — the
/// orphan feature records and the records of no known shape — so a caller can
/// log them as the original helper did. Collection ends where a fatal loading
/// error would end the fold; an unreadable updates directory yields nothing.
pub fn skipped_status_records(tree: &InstallTree, target: &VcpkgTarget) -> (r: Vec<Paragraph>)
    ensures
        tree.has_updates_dir ==> para_views(r@) == spec_skipped_records(
            sort_paras(all_paragraphs(tree@)),
            tree@,
            target@.target_triplet,
        ),
        !tree.has_updates_dir ==> r@.len() == 0,
{
    let mut out: Vec<Paragraph> = Vec::new();
    if !tree.has_updates_dir {
        return out;
    }
    let mut paragraphs: Vec<Paragraph> = Vec::new();
    proof {
        assert(para_views(paragraphs@) =~= Seq::<ParagraphView>::empty());
    }
    match &tree.status_lines {
        Some(lines) => {
            load_status_lines(lines, &mut paragraphs);
        },
        None => {},
    }
    let ghost base = para_views(paragraphs@);
    proof {
        assert(base =~= (match tree@.status_lines {
            Some(l) => parse_status_file(l),
            None => Seq::<ParagraphView>::empty(),
        }));
    }
    let sorted_updates = sort_updates_exec(&tree.updates);
    let ghost uviews = file_views(sorted_updates@);
    let n = sorted_updates.len();
    let mut k: usize = 0;
    proof {
        assert(uviews.take(0) =~= Seq::<NamedFileView>::empty());
        assert(base + updates_paragraphs(uviews.take(0)) =~= base);
    }
    while k < n
        invariant
            n == sorted_updates@.len(),
            uviews == file_views(sorted_updates@),
            uviews == sort_updates(file_views(tree.updates@)),
            base == (match tree@.status_lines {
                Some(l) => parse_status_file(l),
                None => Seq::<ParagraphView>::empty(),
            }),
            out@.len() == 0,
            k <= n,
            para_views(paragraphs@) == base + updates_paragraphs(uviews.take(k as int)),
        decreases n - k,
    {
        proof {
            assert(uviews.take(k + 1).drop_last() =~= uviews.take(k as int));
            assert(uviews.take(k + 1).last() == uviews[k as int]);
            assert(uviews[k as int] == sorted_updates@[k as int]@);
        }
        load_status_lines(&sorted_updates[k].lines, &mut paragraphs);
        k += 1;
    }
    proof {
        assert(uviews.take(n as int) =~= uviews);
        assert(para_views(paragraphs@) == all_paragraphs(tree@));
    }
    let sorted = sort_keyed_paras(paragraphs);
    let ghost sviews = para_views(sorted@);
    let ghost tview = target@.target_triplet;
    let mut db = PortsDb::new();
    let m = sorted.len();
    let mut i: usize = 0;
    proof {
        assert(sviews.take(0) =~= Seq::<ParagraphView>::empty());
        assert(spec_build_ports(sviews.take(0), tree@, tview) == Ok::<_, Seq<char>>(
            Seq::<PortEntryView>::empty(),
        ));
        assert(spec_skipped_records(sviews.take(0), tree@, tview)
            =~= Seq::<ParagraphView>::empty());
        assert(para_views(out@) =~= Seq::<ParagraphView>::empty());
    }
    while i < m
        invariant
            m == sorted@.len(),
            sviews == para_views(sorted@),
            tview == target@.target_triplet,
            tree.has_updates_dir,
            sviews == sort_paras(all_paragraphs(tree@)),
            forall|j: int| 0 <= j < m ==> para_has_key(#[trigger] sviews[j]),
            i <= m,
            spec_build_ports(sviews.take(i as int), tree@, tview) == Ok::<_, Seq<char>>(db@),
            para_views(out@) == spec_skipped_records(sviews.take(i as int), tree@, tview),
        decreases m - i,
    {
        let ghost prev_db = db@;
        let ghost prev_out = para_views(out@);
        proof {
            assert(sviews.take(i + 1).drop_last() =~= sviews.take(i as int));
            assert(sviews.take(i + 1).last() == sviews[i as int]);
            assert(sviews[i as int] == sorted@[i as int]@);
        }
        let p: &Paragraph = &sorted[i];
        let arch_matches = match &p.architecture {
            Some(a) => crate::text::str_eq(a.as_str(), target.target_triplet.triplet.as_str()),
            None => false,
        };
        let installed = match &p.status {
            Some(s) => crate::text::has_suffix(s.as_str(), " installed"),
            None => false,
        };
        proof {
            assert(arch_matches == (sviews[i as int].architecture == Some(tview.triplet)));
            assert(installed == status_installed(sviews[i as int].status));
        }
        if arch_matches && installed {
            let deps: Vec<String> = match &p.depends {
                Some(d) => {
                    proof {
                        reveal_strlit(", ");
                    }
                    crate::text::split_str(d.as_str(), ", ")
                },
                None => Vec::new(),
            };
            proof {
                assert(seq_views(deps@) =~= para_deps(sviews[i as int].depends));
            }
            let name: &String = p.package.as_ref().unwrap();
            match &p.version {
                Some(version) => {
                    match load_port_manifest(tree, target, name.as_str(), version.as_str()) {
                        Ok(dlls_libs) => {
                            let ghost dl = spec_port_manifest(
                                tree@,
                                tview,
                                name@,
                                version@,
                            )->Some_0;
                            let port = Port { dlls: dlls_libs.0, libs: dlls_libs.1, deps };
                            proof {
                                assert(port@.dlls == dl.0 && port@.libs == dl.1);
                                assert(build_step(prev_db, sviews[i as int], tree@, tview)
                                    == Ok::<_, Seq<char>>(insert_port(prev_db, name@, port@)));
                                assert(!skip_step(prev_db, sviews[i as int], tview));
                                assert(prev_out + Seq::<ParagraphView>::empty() =~= prev_out);
                            }
                            db.insert(name.clone(), port);
                        },
                        Err(_) => {
                            proof {
                                assert(spec_build_ports(sviews.take(i + 1), tree@, tview) is Err);
                                lemma_skipped_err_persists(sviews, tree@, tview, i + 1);
                                assert(spec_skipped_records(sviews.take(i + 1), tree@, tview)
                                    =~= prev_out);
                            }
                            return out;
                        },
                    }
                },
                None => {
                    let skipped = match &p.feature {
                        Some(_) => db.get(name.as_str()).is_none(),
                        None => true,
                    };
                    if skipped {
                        out.push(clone_para(p));
                        proof {
                            assert(skip_step(prev_db, sviews[i as int], tview));
                            assert(para_views(out@) =~= prev_out + seq![sviews[i as int]]);
                        }
                    } else {
                        proof {
                            assert(!skip_step(prev_db, sviews[i as int], tview));
                            assert(prev_out + Seq::<ParagraphView>::empty() =~= prev_out);
                        }
                    }
                    match &p.feature {
                        Some(_) => {
                            db.append_deps(name.as_str(), &deps);
                            proof {
                                assert(build_step(prev_db, sviews[i as int], tree@, tview)
                                    == Ok::<_, Seq<char>>(db@));
                            }
                        },
                        None => {},
                    }
                },
            }
        } else {
            proof {
                if !arch_matches {
                    assert(sviews[i as int].architecture != Some(tview.triplet));
                }
                assert(build_step(prev_db, sviews[i as int], tree@, tview) == Ok::<
                    _,
                    Seq<char>,
                >(prev_db));
                assert(!skip_step(prev_db, sviews[i as int], tview));
                assert(prev_out + Seq::<ParagraphView>::empty() =~= prev_out);
            }
        }
        i += 1;
    }
    proof {
        assert(sviews.take(m as int) =~= sviews);
    }
    out
}

/// An orphan feature record is non-fatal: a feature-tagged record of an
/// installed package whose base port was never constructed neither aborts
/// loading nor contributes anything — the mapping is returned unchanged.
pub proof fn lemma_orphan_feature_record(
    db: Seq<PortEntryView>,
    p: ParagraphView,
    tree: InstallTreeView,
    t: TripletView,
)
    requires
        p.version is None,
        p.feature is Some,
        port_idx(db, p.package->Some_0) is None,
    ensures
        build_step(db, p, tree, t) == Ok::<Seq<PortEntryView>, Seq<char>>(db),
{
}

proof fn lemma_build_err_persists(
    paras: Seq<ParagraphView>,
    tree: InstallTreeView,
    t: TripletView,
    k: int,
)
    requires
        0 <= k <= paras.len(),
        spec_build_ports(paras.take(k), tree, t) is Err,
    ensures
        spec_build_ports(paras, tree, t) == spec_build_ports(paras.take(k), tree, t),
    decreases paras.len() - k,
{
    if k < paras.len() {
        assert(paras.take(k + 1).drop_last() =~= paras.take(k));
        lemma_build_err_persists(paras, tree, t, k + 1);
    } else {
        assert(paras.take(k) =~= paras);
    }
}

/// Strict order of update files by name.
pub open spec fn update_lt(a: NamedFileView, b: NamedFileView) -> bool {
    lex_le(a.name, b.name) && a.name != b.name
}

pub open spec fn insert_update(sorted: Seq<NamedFileView>, f: NamedFileView) -> Seq<NamedFileView>
    decreases sorted.len(),
{
    if sorted.len() == 0 {
        seq![f]
    } else if update_lt(f, sorted[0]) {
        seq![f] + sorted
    } else {
        seq![sorted[0]] + insert_update(sorted.drop_first(), f)
    }
}

/// The update files arranged in lexicographic name order; this order is
/// load-bearing, later files overriding earlier ones for the same key.
pub open spec fn sort_updates(fs: Seq<NamedFileView>) -> Seq<NamedFileView>
    decreases fs.len(),
{
    if fs.len() == 0 {
        Seq::empty()
    } else {
        insert_update(sort_updates(fs.drop_last()), fs.last())
    }
}

pub open spec fn updates_paragraphs(fs: Seq<NamedFileView>) -> Seq<ParagraphView>
    decreases fs.len(),
{
    if fs.len() == 0 {
        Seq::empty()
    } else {
        updates_paragraphs(fs.drop_last()) + parse_status_file(fs.last().lines)
    }
}

/// Every paragraph of the status database: the primary status file's, when
/// that file exists, then those of each update file in name order.
pub open spec fn all_paragraphs(tree: InstallTreeView) -> Seq<ParagraphView> {
    (match tree.status_lines {
        Some(l) => parse_status_file(l),
        None => Seq::empty(),
    }) + updates_paragraphs(sort_updates(tree.updates))
}

/// The status database one install tree yields for one target: its paragraphs
/// keyed and merged, then folded into the port mapping.
pub open spec fn spec_load_ports(tree: InstallTreeView, t: TripletView) -> Result<
    Seq<PortEntryView>,
    Seq<char>,
> {
    spec_build_ports(sort_paras(all_paragraphs(tree)), tree, t)
}

proof fn lemma_insert_update_found(sorted: Seq<NamedFileView>, f: NamedFileView, i: int)
    requires
        0 <= i <= sorted.len(),
        forall|j: int| 0 <= j < i ==> !update_lt(f, sorted[j]),
    ensures
        (i < sorted.len() && update_lt(f, sorted[i])) ==> insert_update(sorted, f) == sorted.insert(
            i,
            f,
        ),
        i == sorted.len() ==> insert_update(sorted, f) == sorted.push(f),
    decreases sorted.len(),
{
    if i == 0 {
        if 0 < sorted.len() && update_lt(f, sorted[0]) {
            assert(insert_update(sorted, f) =~= sorted.insert(0, f));
        } else if sorted.len() == 0 {
            assert(insert_update(sorted, f) =~= sorted.push(f));
        }
    } else {
        let t = sorted.drop_first();
        assert(forall|j: int| 0 <= j < i - 1 ==> t[j] == sorted[j + 1]);
        lemma_insert_update_found(t, f, i - 1);
        if i < sorted.len() && update_lt(f, sorted[i]) {
            assert(t[i - 1] == sorted[i]);
            assert(insert_update(sorted, f) =~= sorted.insert(i, f));
        } else if i == sorted.len() {
            assert(insert_update(sorted, f) =~= sorted.push(f));
        }
    }
}

pub proof fn lemma_find_manifest(ms: Seq<NamedFileView>, name: Seq<char>)
    ensures
        match find_manifest(ms, name) {
            Some(m) => exists|i: int|
                0 <= i < ms.len() && ms[i] == m && ms[i].name == name && (forall|j: int|
                    0 <= j < i ==> ms[j].name != name),
            None => forall|j: int| 0 <= j < ms.len() ==> ms[j].name != name,
        },
    decreases ms.len(),
{
    if ms.len() > 0 {
        if ms[0].name == name {
            assert(ms[0] == find_manifest(ms, name)->Some_0);
        } else {
            lemma_find_manifest(ms.drop_first(), name);
            let t = ms.drop_first();
            match find_manifest(t, name) {
                Some(m) => {
                    let i = choose|i: int|
                        0 <= i < t.len() && t[i] == m && t[i].name == name && (forall|j: int|
                            0 <= j < i ==> t[j].name != name);
                    assert(ms[i + 1] == t[i]);
                    assert forall|j: int| 0 <= j < i + 1 implies ms[j].name != name by {
                        if j > 0 {
                            assert(t[j - 1] == ms[j]);
                        }
                    }
                },
                None => {
                    assert forall|j: int| 0 <= j < ms.len() implies ms[j].name != name by {
                        if j > 0 {
                            assert(t[j - 1] == ms[j]);
                        }
                    }
                },
            }
        }
    }
}

pub proof fn lemma_find_pc_dir(dirs: Seq<PcDirView>, key: Seq<char>)
    ensures
        match find_pc_dir(dirs, key) {
            Some(d) => exists|i: int|
                0 <= i < dirs.len() && dirs[i] == d && dirs[i].key == key && (forall|j: int|
                    0 <= j < i ==> dirs[j].key != key),
            None => forall|j: int| 0 <= j < dirs.len() ==> dirs[j].key != key,
        },
    decreases dirs.len(),
{
    if dirs.len() > 0 {
        if dirs[0].key == key {
            assert(dirs[0] == find_pc_dir(dirs, key)->Some_0);
        } else {
            lemma_find_pc_dir(dirs.drop_first(), key);
            let t = dirs.drop_first();
            match find_pc_dir(t, key) {
                Some(d) => {
                    let i = choose|i: int|
                        0 <= i < t.len() && t[i] == d && t[i].key == key && (forall|j: int|
                            0 <= j < i ==> t[j].key != key);
                    assert(dirs[i + 1] == t[i]);
                    assert forall|j: int| 0 <= j < i + 1 implies dirs[j].key != key by {
                        if j > 0 {
                            assert(t[j - 1] == dirs[j]);
                        }
                    }
                },
                None => {
                    assert forall|j: int| 0 <= j < dirs.len() implies dirs[j].key != key by {
                        if j > 0 {
                            assert(t[j - 1] == dirs[j]);
                        }
                    }
                },
            }
        }
    }
}

/// The views of a sequence of update files.
pub open spec fn file_views(fs: Seq<NamedFile>) -> Seq<NamedFileView> {
    fs.map_values(|f: NamedFile| f@)
}

fn clone_named_file(f: &NamedFile) -> (r: NamedFile)
    ensures
        r@ == f@,
{
    NamedFile { name: f.name.clone(), lines: crate::text::clone_string_vec(&f.lines) }
}

fn update_lt_exec(a: &NamedFile, b: &NamedFile) -> (r: bool)
    ensures
        r == update_lt(a@, b@),
{
    crate::text::str_le(a.name.as_str(), b.name.as_str()) && !crate::text::str_eq(
        a.name.as_str(),
        b.name.as_str(),
    )
}

/// Reads one port's installed-file manifest out of the tree description and
/// splits it into shared libraries and static/import libraries, the latter
/// reordered by the port's metadata records. A port claimed installed must
/// have a manifest: a missing one is fatal.
pub fn load_port_manifest(
    tree: &InstallTree,
    target: &VcpkgTarget,
    port: &str,
    version: &str,
) -> (r: Result<(Vec<String>, Vec<String>), Error>)
    ensures
        match spec_port_manifest(tree@, target@.target_triplet, port@, version@) {
            Some(dl) => match r {
                Ok(dlls_libs) => seq_views(dlls_libs.0@) == dl.0 && seq_views(dlls_libs.1@)
                    == dl.1,
                Err(_) => false,
            },
            None => match r {
                Ok(_) => false,
                Err(e) => match e {
                    Error::VcpkgInstallation(m) => m@ == "Could not open port manifest file "@
                        + target@.status_path + "/info/"@ + manifest_file_name(
                        port@,
                        version@,
                        target@.target_triplet.triplet,
                    ),
                    _ => false,
                },
            },
        },
{
    let t: &crate::target_triplet::TargetTriplet = &target.target_triplet;
    let mut fname = String::from_str(port);
    crate::text::append_str(&mut fname, "_");
    crate::text::append_str(&mut fname, version);
    crate::text::append_str(&mut fname, "_");
    crate::text::append_str(&mut fname, t.triplet.as_str());
    crate::text::append_str(&mut fname, ".list");
    proof {
        assert(fname@ == manifest_file_name(port@, version@, t@.triplet));
    }
    let n = tree.manifests.len();
    let mut i: usize = 0;
    let ghost mviews = tree@.manifests;
    while i < n
        invariant
            n == tree.manifests@.len(),
            mviews == tree@.manifests,
            t@ == target@.target_triplet,
            fname@ == manifest_file_name(port@, version@, target@.target_triplet.triplet),
            i <= n,
            forall|j: int| 0 <= j < i ==> mviews[j].name != fname@,
        decreases n - i,
    {
        assert(mviews[i as int] == tree.manifests@[i as int]@);
        if crate::text::str_eq(tree.manifests[i].name.as_str(), fname.as_str()) {
            proof {
                lemma_find_manifest(mviews, fname@);
                match find_manifest(mviews, fname@) {
                    Some(m) => {
                        let w = choose|w: int|
                            0 <= w < mviews.len() && mviews[w] == m && mviews[w].name == fname@
                                && (forall|j: int| 0 <= j < w ==> mviews[j].name != fname@);
                        assert(!(w < i) && !(i < w));
                        assert(find_manifest(mviews, fname@) == Some(mviews[i as int]));
                    },
                    None => {
                        assert(mviews[i as int].name == fname@);
                    },
                }
            }
            let (dlls, libs) = split_manifest_lines(&tree.manifests[i].lines, t);
            let libs = refine_port_libs(tree, t, port, libs);
            return Ok((dlls, libs));
        }
        assert(mviews[i as int].name != fname@);
        i += 1;
    }
    proof {
        lemma_find_manifest(mviews, fname@);
        if find_manifest(mviews, fname@) is Some {
            let m = find_manifest(mviews, fname@)->Some_0;
            let w = choose|w: int|
                0 <= w < mviews.len() && mviews[w] == m && mviews[w].name == fname@ && (forall|
                    j: int,
                |
                    0 <= j < w ==> mviews[j].name != fname@);
            assert(mviews[w].name == fname@);
        }
    }
    let mut msg = String::from_str("Could not open port manifest file ");
    crate::text::append_str(&mut msg, target.status_path.as_str());
    crate::text::append_str(&mut msg, "/info/");
    crate::text::append_str(&mut msg, fname.as_str());
    Err(Error::VcpkgInstallation(msg))
}

/// Splits manifest lines into shared libraries and raw static/import
/// libraries for the target.
fn split_manifest_lines(lines: &Vec<String>, t: &crate::target_triplet::TargetTriplet) -> (r: (
    Vec<String>,
    Vec<String>,
))
    ensures
        seq_views(r.0@) == manifest_dlls(seq_views(lines@), t@),
        seq_views(r.1@) == manifest_raw_libs(seq_views(lines@), t@),
{
    let mut bin_pre = String::from_str(t.triplet.as_str());
    crate::text::append_str(&mut bin_pre, "/bin/");
    let mut lib_pre = String::from_str(t.triplet.as_str());
    crate::text::append_str(&mut lib_pre, "/lib/");
    let mut lib_sfx = String::from_str(".");
    crate::text::append_str(&mut lib_sfx, t.lib_suffix.as_str());
    proof {
        reveal_strlit(".");
        assert(lib_sfx@ =~= seq!['.'] + t@.lib_suffix);
    }
    let mut dlls: Vec<String> = Vec::new();
    let mut libs: Vec<String> = Vec::new();
    let ghost lviews = seq_views(lines@);
    let n = lines.len();
    let mut k: usize = 0;
    proof {
        assert(lviews.skip(0) =~= lviews);
        assert(seq_views(dlls@) =~= Seq::<Seq<char>>::empty());
        assert(seq_views(libs@) =~= Seq::<Seq<char>>::empty());
    }
    while k < n
        invariant
            n == lines@.len(),
            lviews == seq_views(lines@),
            k <= n,
            bin_pre@ == t@.triplet + "/bin/"@,
            lib_pre@ == t@.triplet + "/lib/"@,
            lib_sfx@ == seq!['.'] + t@.lib_suffix,
            manifest_dlls(lviews, t@) =~= seq_views(dlls@) + manifest_dlls(
                lviews.skip(k as int),
                t@,
            ),
            manifest_raw_libs(lviews, t@) =~= seq_views(libs@) + manifest_raw_libs(
                lviews.skip(k as int),
                t@,
            ),
        decreases n - k,
    {
        proof {
            assert(lviews.skip(k as int)[0] == lviews[k as int]);
            assert(lviews.skip(k as int).drop_first() =~= lviews.skip(k + 1));
        }
        let line: &String = &lines[k];
        let llen = line.as_str().unicode_len();
        let ghost prev_dlls = seq_views(dlls@);
        let ghost prev_libs = seq_views(libs@);
        if crate::text::has_prefix(line.as_str(), bin_pre.as_str()) {
            let plen = bin_pre.as_str().unicode_len();
            let rest = line.as_str().substring_char(plen, llen);
            proof {
                assert(rest@ =~= line@.skip(plen as int));
            }
            let rlen = llen - plen;
            if rlen > 4 && crate::text::has_suffix(rest, ".dll") && !crate::text::str_contains_char(
                rest,
                '/',
            ) {
                proof {
                    reveal_strlit(".dll");
                }
                dlls.push(String::from_str(rest));
                proof {
                    assert(seq_views(dlls@) =~= prev_dlls.push(rest@));
                }
            } else {
                proof {
                    reveal_strlit(".dll");
                    assert(manifest_dll(lviews[k as int], t@) is None);
                }
            }
        } else if crate::text::has_prefix(line.as_str(), lib_pre.as_str()) {
            let plen = lib_pre.as_str().unicode_len();
            let rest = line.as_str().substring_char(plen, llen);
            proof {
                assert(rest@ =~= line@.skip(plen as int));
            }
            let rlen = llen - plen;
            let slen = lib_sfx.as_str().unicode_len();
            if rlen > slen && crate::text::has_suffix(rest, lib_sfx.as_str())
                && !crate::text::str_contains_char(rest, '/') {
                match target_link_name(t, rest) {
                    Some(name) => {
                        libs.push(name);
                        proof {
                            assert(seq_views(libs@) =~= prev_libs.push(rest@));
                        }
                    },
                    None => {},
                }
            } else {
                proof {
                    assert(manifest_lib(lviews[k as int], t@) is None);
                }
            }
        }
        k += 1;
    }
    proof {
        assert(lviews.skip(n as int) =~= Seq::<Seq<char>>::empty());
    }
    (dlls, libs)
}

/// The link name a library file contributes, by the target's conventions.
fn target_link_name(t: &crate::target_triplet::TargetTriplet, filename: &str) -> (r: Option<
    String,
>)
    ensures
        match r {
            Some(name) => name@ == filename@,
            None => false,
        },
{
    if t.strip_lib_prefix {
        Some(String::from_str(filename))
    } else {
        Some(String::from_str(filename))
    }
}

/// Reorders one port's libraries by its metadata records, when the port has a
/// metadata directory; without one the order is kept.
fn refine_port_libs(
    tree: &InstallTree,
    t: &crate::target_triplet::TargetTriplet,
    port: &str,
    libs: Vec<String>,
) -> (r: Vec<String>)
    ensures
        seq_views(r@) == ({
            let key = port@ + "_"@ + t@.triplet;
            match find_pc_dir(tree@.pc_dirs, key) {
                Some(d) => spec_refine(pc_records(d.files, t@), seq_views(libs@)),
                None => seq_views(libs@),
            }
        }),
{
    let mut key = String::from_str(port);
    crate::text::append_str(&mut key, "_");
    crate::text::append_str(&mut key, t.triplet.as_str());
    let ghost dviews = tree@.pc_dirs;
    let n = tree.pc_dirs.len();
    let mut i: usize = 0;
    while i < n
        invariant
            n == tree.pc_dirs@.len(),
            dviews == tree@.pc_dirs,
            key@ == port@ + "_"@ + t@.triplet,
            i <= n,
            forall|j: int| 0 <= j < i ==> dviews[j].key != key@,
        decreases n - i,
    {
        assert(dviews[i as int] == tree.pc_dirs@[i as int]@);
        if crate::text::str_eq(tree.pc_dirs[i].key.as_str(), key.as_str()) {
            proof {
                lemma_find_pc_dir(dviews, key@);
                match find_pc_dir(dviews, key@) {
                    Some(d) => {
                        let w = choose|w: int|
                            0 <= w < dviews.len() && dviews[w] == d && dviews[w].key == key@ && (
                            forall|j: int| 0 <= j < w ==> dviews[j].key != key@);
                        assert(!(w < i) && !(i < w));
                        assert(find_pc_dir(dviews, key@) == Some(dviews[i as int]));
                    },
                    None => {
                        assert(dviews[i as int].key == key@);
                    },
                }
            }
            let pcs = load_pc_records(&tree.pc_dirs[i].files, t);
            return pcs.fix_ordering(libs);
        }
        assert(dviews[i as int].key != key@);
        i += 1;
    }
    proof {
        lemma_find_pc_dir(dviews, key@);
        if find_pc_dir(dviews, key@) is Some {
            let d = find_pc_dir(dviews, key@)->Some_0;
            let w = choose|w: int|
                0 <= w < dviews.len() && dviews[w] == d && dviews[w].key == key@ && (forall|j: int|
                    0 <= j < w ==> dviews[j].key != key@);
            assert(dviews[w].key == key@);
        }
    }
    libs
}

/// Parses one port's metadata files into a record set, under map semantics.
fn load_pc_records(
    files: &Vec<crate::install_tree::PcText>,
    t: &crate::target_triplet::TargetTriplet,
) -> (r: crate::pc_file::PcFiles)
    ensures
        r@ == pc_records(files@.map_values(|f: crate::install_tree::PcText| f@), t@),
{
    let ghost fviews = files@.map_values(|f: crate::install_tree::PcText| f@);
    let mut pcs = crate::pc_file::PcFiles::new();
    let n = files.len();
    let mut k: usize = 0;
    proof {
        assert(fviews.take(0) =~= Seq::<PcTextView>::empty());
    }
    while k < n
        invariant
            n == files@.len(),
            fviews == files@.map_values(|f: crate::install_tree::PcText| f@),
            k <= n,
            pcs@ == pc_records(fviews.take(k as int), t@),
        decreases n - k,
    {
        proof {
            assert(fviews.take(k + 1).drop_last() =~= fviews.take(k as int));
            assert(fviews.take(k + 1).last() == fviews[k as int]);
            assert(fviews[k as int] == files@[k as int]@);
        }
        let file: &crate::install_tree::PcText = &files[k];
        match crate::pc_file::PcFile::from_str(file.id.as_str(), file.text.as_str(), t) {
            Ok(f) => {
                proof {
                    assert(f@ == parse_pc_view(fviews[k as int], t@)) by {
                        assert(f@.id == fviews[k as int].id);
                        assert(f@.libs == parse_pc_view(fviews[k as int], t@).libs);
                        assert(f@.deps == parse_pc_view(fviews[k as int], t@).deps);
                    }
                }
                pcs.add(f);
            },
            Err(_) => {
                // The metadata parser accepts every text; its contract rules
                // this arm out.
                proof {
                    assert(false);
                }
            },
        }
        k += 1;
    }
    proof {
        assert(fviews.take(n as int) =~= fviews);
    }
    pcs
}

/// Loads the status database of one install tree for one target: the primary
/// status file (its absence is not an error), then every update file in
/// lexicographic name order, merged by (package, architecture, feature) with
/// later paragraphs replacing earlier ones, and folded into the port mapping.
/// An unreadable updates directory is fatal; so is a missing manifest for a
/// port claimed installed; an orphan feature record is skipped.
pub fn load_ports(tree: &InstallTree, target: &VcpkgTarget) -> (r: Result<PortsDb, Error>)
    ensures
        !tree.has_updates_dir ==> match r {
            Ok(_) => false,
            Err(e) => match e {
                Error::VcpkgInstallation(m) => m@ == "could not read status file updates dir"@,
                _ => false,
            },
        },
        tree.has_updates_dir ==> match spec_load_ports(tree@, target@.target_triplet) {
            Ok(db) => match r {
                Ok(d) => d@ == db,
                Err(_) => false,
            },
            Err(fname) => match r {
                Ok(_) => false,
                Err(e) => match e {
                    Error::VcpkgInstallation(m) => m@ == "Could not open port manifest file "@
                        + target@.status_path + "/info/"@ + fname,
                    _ => false,
                },
            },
        },
{
    if !tree.has_updates_dir {
        return Err(
            Error::VcpkgInstallation(String::from_str("could not read status file updates dir")),
        );
    }
    let mut paragraphs: Vec<Paragraph> = Vec::new();
    proof {
        assert(para_views(paragraphs@) =~= Seq::<ParagraphView>::empty());
    }
    match &tree.status_lines {
        Some(lines) => {
            load_status_lines(lines, &mut paragraphs);
        },
        None => {},
    }
    let ghost base = para_views(paragraphs@);
    proof {
        assert(base =~= (match tree@.status_lines {
            Some(l) => parse_status_file(l),
            None => Seq::<ParagraphView>::empty(),
        }));
    }
    let sorted_updates = sort_updates_exec(&tree.updates);
    let ghost uviews = file_views(sorted_updates@);
    let n = sorted_updates.len();
    let mut k: usize = 0;
    proof {
        assert(uviews.take(0) =~= Seq::<NamedFileView>::empty());
        assert(base + updates_paragraphs(uviews.take(0)) =~= base);
    }
    while k < n
        invariant
            n == sorted_updates@.len(),
            uviews == file_views(sorted_updates@),
            uviews == sort_updates(file_views(tree.updates@)),
            base == (match tree@.status_lines {
                Some(l) => parse_status_file(l),
                None => Seq::<ParagraphView>::empty(),
            }),
            k <= n,
            para_views(paragraphs@) == base + updates_paragraphs(uviews.take(k as int)),
        decreases n - k,
    {
        proof {
            assert(uviews.take(k + 1).drop_last() =~= uviews.take(k as int));
            assert(uviews.take(k + 1).last() == uviews[k as int]);
            assert(uviews[k as int] == sorted_updates@[k as int]@);
        }
        load_status_lines(&sorted_updates[k].lines, &mut paragraphs);
        k += 1;
    }
    proof {
        assert(uviews.take(n as int) =~= uviews);
        assert(para_views(paragraphs@) == all_paragraphs(tree@));
    }
    let sorted = sort_keyed_paras(paragraphs);
    let ghost sviews = para_views(sorted@);
    let ghost tview = target@.target_triplet;
    let mut db = PortsDb::new();
    let m = sorted.len();
    let mut i: usize = 0;
    proof {
        assert(sviews.take(0) =~= Seq::<ParagraphView>::empty());
        assert(spec_build_ports(sviews.take(0), tree@, tview) == Ok::<_, Seq<char>>(
            Seq::<PortEntryView>::empty(),
        ));
    }
    while i < m
        invariant
            m == sorted@.len(),
            sviews == para_views(sorted@),
            tview == target@.target_triplet,
            tree.has_updates_dir,
            sviews == sort_paras(all_paragraphs(tree@)),
            forall|j: int| 0 <= j < m ==> para_has_key(#[trigger] sviews[j]),
            i <= m,
            spec_build_ports(sviews.take(i as int), tree@, tview) == Ok::<_, Seq<char>>(db@),
        decreases m - i,
    {
        let ghost prev_db = db@;
        proof {
            assert(sviews.take(i + 1).drop_last() =~= sviews.take(i as int));
            assert(sviews.take(i + 1).last() == sviews[i as int]);
            assert(sviews[i as int] == sorted@[i as int]@);
        }
        let p: &Paragraph = &sorted[i];
        let arch_matches = match &p.architecture {
            Some(a) => crate::text::str_eq(a.as_str(), target.target_triplet.triplet.as_str()),
            None => false,
        };
        let installed = match &p.status {
            Some(s) => crate::text::has_suffix(s.as_str(), " installed"),
            None => false,
        };
        proof {
            assert(arch_matches == (sviews[i as int].architecture == Some(tview.triplet)));
            assert(installed == status_installed(sviews[i as int].status));
        }
        if arch_matches && installed {
            let deps: Vec<String> = match &p.depends {
                Some(d) => {
                    proof {
                        reveal_strlit(", ");
                    }
                    crate::text::split_str(d.as_str(), ", ")
                },
                None => Vec::new(),
            };
            proof {
                assert(seq_views(deps@) =~= para_deps(sviews[i as int].depends));
            }
            let name: &String = p.package.as_ref().unwrap();
            match &p.version {
                Some(version) => {
                    match load_port_manifest(tree, target, name.as_str(), version.as_str()) {
                        Ok(dlls_libs) => {
                            let ghost dl = spec_port_manifest(
                                tree@,
                                tview,
                                name@,
                                version@,
                            )->Some_0;
                            let port = Port { dlls: dlls_libs.0, libs: dlls_libs.1, deps };
                            proof {
                                assert(port@.dlls == dl.0 && port@.libs == dl.1);
                                assert(build_step(prev_db, sviews[i as int], tree@, tview)
                                    == Ok::<_, Seq<char>>(insert_port(prev_db, name@, port@)));
                            }
                            db.insert(name.clone(), port);
                        },
                        Err(e) => {
                            proof {
                                assert(spec_build_ports(sviews.take(i + 1), tree@, tview)
                                    == Err::<Seq<PortEntryView>, _>(
                                    manifest_file_name(name@, version@, tview.triplet),
                                ));
                                lemma_build_err_persists(sviews, tree@, tview, i + 1);
                            }
                            return Err(e);
                        },
                    }
                },
                None => {
                    match &p.feature {
                        Some(_) => {
                            db.append_deps(name.as_str(), &deps);
                            proof {
                                assert(build_step(prev_db, sviews[i as int], tree@, tview)
                                    == Ok::<_, Seq<char>>(db@));
                            }
                        },
                        None => {},
                    }
                },
            }
        } else {
            proof {
                if !arch_matches {
                    assert(sviews[i as int].architecture != Some(tview.triplet));
                }
                assert(build_step(prev_db, sviews[i as int], tree@, tview) == Ok::<
                    _,
                    Seq<char>,
                >(prev_db));
            }
        }
        i += 1;
    }
    proof {
        assert(sviews.take(m as int) =~= sviews);
    }
    Ok(db)
}

/// Inserts one update file into the name-sorted list.
fn insert_update_exec(sorted: &mut Vec<NamedFile>, f: NamedFile)
    ensures
        file_views(final(sorted)@) == insert_update(file_views(old(sorted)@), f@),
{
    let ghost sviews = file_views(sorted@);
    let n = sorted.len();
    let mut i: usize = 0;
    while i < n
        invariant
            n == sorted@.len(),
            sorted@ == old(sorted)@,
            sviews == file_views(sorted@),
            i <= n,
            forall|j: int| 0 <= j < i ==> !update_lt(f@, sviews[j]),
        decreases n - i,
    {
        assert(sviews[i as int] == sorted@[i as int]@);
        if update_lt_exec(&f, &sorted[i]) {
            proof {
                lemma_insert_update_found(sviews, f@, i as int);
            }
            sorted.insert(i, f);
            proof {
                assert(file_views(sorted@) =~= sviews.insert(i as int, f@));
            }
            return ;
        }
        i += 1;
    }
    proof {
        lemma_insert_update_found(sviews, f@, n as int);
    }
    sorted.push(f);
    proof {
        assert(file_views(sorted@) =~= sviews.push(f@));
    }
}

/// Arranges the update files in lexicographic name order.
fn sort_updates_exec(fs: &Vec<NamedFile>) -> (r: Vec<NamedFile>)
    ensures
        file_views(r@) == sort_updates(file_views(fs@)),
{
    let ghost fviews = file_views(fs@);
    let mut out: Vec<NamedFile> = Vec::new();
    let n = fs.len();
    let mut k: usize = 0;
    proof {
        assert(file_views(out@) =~= Seq::<NamedFileView>::empty());
        assert(fviews.take(0) =~= Seq::<NamedFileView>::empty());
    }
    while k < n
        invariant
            n == fs@.len(),
            fviews == file_views(fs@),
            k <= n,
            file_views(out@) == sort_updates(fviews.take(k as int)),
        decreases n - k,
    {
        proof {
            assert(fviews.take(k + 1).drop_last() =~= fviews.take(k as int));
            assert(fviews.take(k + 1).last() == fviews[k as int]);
            assert(fviews[k as int] == fs@[k as int]@);
        }
        let f = clone_named_file(&fs[k]);
        insert_update_exec(&mut out, f);
        k += 1;
    }
    proof {
        assert(fviews.take(n as int) =~= fviews);
    }
    out
}

} // verus!
