//! Per-library metadata records ("pc files") and the link-order refinement
//! they drive. A record names the library files it provides and the
//! identifiers of the records it requires; only those two directives matter
//! for ordering, version bounds are parsed and discarded.
use vstd::prelude::*;
use vstd::multiset::Multiset;
use vstd::pervasive::VecAdditionalExecFns;

use crate::error::Error;
use crate::target_triplet::TargetTriplet;
use crate::target_triplet::TripletView;
use crate::text::first_index_of;
use crate::text::first_match;
use crate::text::lemma_first_match;
use crate::text::seq_views;
use crate::text::spec_lines;
use crate::text::spec_split;
use crate::text::spec_split_ws;
use crate::text::spec_starts_with;

verus! {

/// Parsed knowledge from one metadata file.
#[derive(Debug)]
pub struct PcFile {
    /// The record's identifier, from the file's name.
    pub id: String,
    /// Library file names declared by the record's link flags, reconstructed
    /// to the on-disk names of the given target.
    pub libs: Vec<String>,
    /// Identifiers of the records this record requires.
    pub deps: Vec<String>,
}

/// The mathematical content of a [`PcFile`].
pub struct PcFileView {
    pub id: Seq<char>,
    pub libs: Seq<Seq<char>>,
    pub deps: Seq<Seq<char>>,
}

impl View for PcFile {
    type V = PcFileView;

    open spec fn view(&self) -> PcFileView {
        PcFileView { id: self.id@, libs: seq_views(self.libs@), deps: seq_views(self.deps@) }
    }
}

/// The value of a `Key: value` line: everything after the line's first `:`,
/// to the line's end; empty when the line has no `:` at all.
pub open spec fn colon_piece(line: Seq<char>) -> Seq<char> {
    match first_match(line, seq![':']) {
        Some(i) => line.subrange(i + 1, line.len() as int),
        None => Seq::empty(),
    }
}

/// Whitespace-separated tokens further split at commas, empty pieces dropped.
pub open spec fn comma_pieces(tok: Seq<char>) -> Seq<Seq<char>> {
    nonempty_pieces(spec_split(tok, seq![',']))
}

pub open spec fn nonempty_pieces(pieces: Seq<Seq<char>>) -> Seq<Seq<char>>
    decreases pieces.len(),
{
    if pieces.len() == 0 {
        Seq::empty()
    } else if pieces[0].len() > 0 {
        seq![pieces[0]] + nonempty_pieces(pieces.drop_first())
    } else {
        nonempty_pieces(pieces.drop_first())
    }
}

pub open spec fn requires_tokens(value: Seq<char>) -> Seq<Seq<char>> {
    requires_tokens_of(spec_split_ws(value))
}

pub open spec fn requires_tokens_of(ws_toks: Seq<Seq<char>>) -> Seq<Seq<char>>
    decreases ws_toks.len(),
{
    if ws_toks.len() == 0 {
        Seq::empty()
    } else {
        comma_pieces(ws_toks[0]) + requires_tokens_of(ws_toks.drop_first())
    }
}

/// A token carrying a version-comparison operator; the token after it is a
/// version value and is skipped as well.
pub open spec fn has_version_op(tok: Seq<char>) -> bool {
    exists|i: int| 0 <= i < tok.len() && (tok[i] == '=' || tok[i] == '<' || tok[i] == '>')
}

/// The dependency identifiers among the tokens of a `Requires:` line: any
/// token with a version-comparison operator is a version bound, and the token
/// after it is skipped, not collected.
pub open spec fn deps_of_tokens(toks: Seq<Seq<char>>) -> Seq<Seq<char>>
    decreases toks.len(),
{
    if toks.len() == 0 {
        Seq::empty()
    } else if has_version_op(toks[0]) {
        if toks.len() >= 2 {
            deps_of_tokens(toks.skip(2))
        } else {
            Seq::empty()
        }
    } else {
        seq![toks[0]] + deps_of_tokens(toks.drop_first())
    }
}

/// A link-flag token with every leading `-l` removed.
pub open spec fn strip_link_flag(tok: Seq<char>) -> Seq<char>
    decreases tok.len(),
{
    if spec_starts_with(tok, "-l"@) && tok.len() >= 2 {
        strip_link_flag(tok.skip(2))
    } else {
        tok
    }
}

/// The on-disk file name a `-l` token stands for under the given target: a
/// `lib` prefix where the target strips it from link names, and the target's
/// static-library suffix.
pub open spec fn link_flag_file_name(tok: Seq<char>, t: TripletView) -> Seq<char> {
    (if t.strip_lib_prefix {
        "lib"@
    } else {
        Seq::empty()
    }) + strip_link_flag(tok) + seq!['.'] + t.lib_suffix
}

/// The library file names among the tokens of a `Libs:` line: one for each
/// token that starts with the short link flag `-l`.
pub open spec fn libs_of_tokens(toks: Seq<Seq<char>>, t: TripletView) -> Seq<Seq<char>>
    decreases toks.len(),
{
    if toks.len() == 0 {
        Seq::empty()
    } else {
        let rest = libs_of_tokens(toks.drop_first(), t);
        if spec_starts_with(toks[0], "-l"@) {
            seq![link_flag_file_name(toks[0], t)] + rest
        } else {
            rest
        }
    }
}

/// All library file names a record's `Libs:` lines declare, in line order.
pub open spec fn pc_libs(lines: Seq<Seq<char>>, t: TripletView) -> Seq<Seq<char>>
    decreases lines.len(),
{
    if lines.len() == 0 {
        Seq::empty()
    } else {
        pc_libs(lines.drop_last(), t) + (if spec_starts_with(lines.last(), "Libs:"@) {
            libs_of_tokens(spec_split_ws(colon_piece(lines.last())), t)
        } else {
            Seq::empty()
        })
    }
}

/// All dependency identifiers a record's `Requires:` lines declare, in line
/// order.
pub open spec fn pc_deps(lines: Seq<Seq<char>>) -> Seq<Seq<char>>
    decreases lines.len(),
{
    if lines.len() == 0 {
        Seq::empty()
    } else {
        pc_deps(lines.drop_last()) + (if spec_starts_with(lines.last(), "Requires:"@) {
            deps_of_tokens(requires_tokens(colon_piece(lines.last())))
        } else {
            Seq::empty()
        })
    }
}

impl PcFile {
    /// Parses one metadata record from its identifier and its text, reading
    /// only the `Requires:` and `Libs:` lines.
    pub fn from_str(id: &str, s: &str, target_triplet: &TargetTriplet) -> (r: Result<
        PcFile,
        Error,
    >)
        ensures
            match r {
                Ok(f) => {
                    &&& f@.id == id@
                    &&& f@.libs == pc_libs(spec_lines(s@), target_triplet@)
                    &&& f@.deps == pc_deps(spec_lines(s@))
                },
                Err(_) => false,
            },
    {
        let mut libs: Vec<String> = Vec::new();
        let mut deps: Vec<String> = Vec::new();
        let lines = crate::text::lines_of(s);
        let ghost line_views = spec_lines(s@);
        let n = lines.len();
        let mut k: usize = 0;
        while k < n
            invariant
                n == lines@.len(),
                line_views == seq_views(lines@),
                k <= n,
                seq_views(libs@) == pc_libs(line_views.take(k as int), target_triplet@),
                seq_views(deps@) == pc_deps(line_views.take(k as int)),
            decreases n - k,
        {
            let line: &String = &lines[k];
            let ghost prev_libs = seq_views(libs@);
            let ghost prev_deps = seq_views(deps@);
            if crate::text::has_prefix(line.as_str(), "Requires:") {
                proof {
                    reveal_strlit("Requires:");
                    reveal_strlit("Libs:");
                    assert(!spec_starts_with(line@, "Libs:"@)) by {
                        assert(spec_starts_with(line@, "Requires:"@));
                        assert(line@.subrange(0, 9)[0] == line@[0]);
                        if spec_starts_with(line@, "Libs:"@) {
                            assert(line@.subrange(0, 5)[0] == line@[0]);
                        }
                    }
                }
                let value = colon_value(line.as_str());
                let toks = requires_token_vec(value.as_str());
                push_dep_tokens(&mut deps, &toks);
            } else if crate::text::has_prefix(line.as_str(), "Libs:") {
                proof {
                    reveal_strlit("Requires:");
                    reveal_strlit("Libs:");
                }
                let value = colon_value(line.as_str());
                let toks = crate::text::split_ws(value.as_str());
                push_lib_tokens(&mut libs, &toks, target_triplet);
            } else {
                proof {
                    reveal_strlit("Requires:");
                    reveal_strlit("Libs:");
                }
            }
            proof {
                assert(line_views.take(k + 1).drop_last() =~= line_views.take(k as int));
                assert(line_views.take(k + 1).last() == line@);
            }
            k += 1;
        }
        proof {
            assert(line_views.take(n as int) =~= line_views);
        }
        Ok(PcFile { id: String::from_str(id), libs, deps })
    }
}

/// The value after a line's first `:`, to the line's end.
fn colon_value(line: &str) -> (r: String)
    ensures
        r@ == colon_piece(line@),
{
    let colon = ":";
    proof {
        reveal_strlit(":");
        assert(colon@ =~= seq![':']);
    }
    match crate::text::find_sub(line, colon) {
        Some(i) => {
            proof {
                lemma_first_match(line@, seq![':']);
            }
            let llen = line.unicode_len();
            String::from_str(line.substring_char(i + 1, llen))
        },
        None => String::new(),
    }
}

/// The tokens of a `Requires:` value: whitespace-separated, split again at
/// commas, empty pieces dropped.
fn requires_token_vec(value: &str) -> (r: Vec<String>)
    ensures
        seq_views(r@) == requires_tokens(value@),
{
    let ws_toks = crate::text::split_ws(value);
    let comma = ",";
    proof {
        reveal_strlit(",");
        assert(comma@ =~= seq![',']);
    }
    let mut out: Vec<String> = Vec::new();
    let n = ws_toks.len();
    let mut k: usize = 0;
    let ghost wviews = seq_views(ws_toks@);
    proof {
        assert(wviews.skip(0) =~= wviews);
    }
    while k < n
        invariant
            n == ws_toks@.len(),
            wviews == seq_views(ws_toks@),
            comma@ == seq![','],
            k <= n,
            requires_tokens_of(wviews) =~= seq_views(out@) + requires_tokens_of(
                wviews.skip(k as int),
            ),
        decreases n - k,
    {
        let pieces = crate::text::split_str(ws_toks[k].as_str(), comma);
        let m = pieces.len();
        let mut j: usize = 0;
        let ghost pviews = seq_views(pieces@);
        proof {
            assert(pviews.skip(0) =~= pviews);
            assert(wviews.skip(k as int)[0] == wviews[k as int]);
            assert(wviews.skip(k as int).drop_first() =~= wviews.skip(k + 1));
            assert(requires_tokens_of(wviews.skip(k as int)) == comma_pieces(wviews[k as int])
                + requires_tokens_of(wviews.skip(k + 1)));
        }
        while j < m
            invariant
                m == pieces@.len(),
                pviews == seq_views(pieces@),
                j <= m,
                requires_tokens_of(wviews) =~= seq_views(out@) + nonempty_pieces(
                    pviews.skip(j as int),
                ) + requires_tokens_of(wviews.skip(k + 1)),
            decreases m - j,
        {
            let ghost prev = seq_views(out@);
            let piece: &String = &pieces[j];
            if piece.as_str().unicode_len() > 0 {
                out.push(piece.clone());
                proof {
                    assert(seq_views(out@) =~= prev.push(piece@));
                }
            }
            proof {
                assert(pviews.skip(j as int).drop_first() =~= pviews.skip(j + 1));
            }
            j += 1;
        }
        proof {
            assert(pviews.skip(m as int) =~= Seq::<Seq<char>>::empty());
        }
        k += 1;
    }
    proof {
        assert(wviews.skip(n as int) =~= Seq::<Seq<char>>::empty());
    }
    out
}

/// Collects the dependency identifiers among `toks`, skipping each version
/// bound together with the version value after it.
fn push_dep_tokens(deps: &mut Vec<String>, toks: &Vec<String>)
    ensures
        seq_views(final(deps)@) == seq_views(old(deps)@) + deps_of_tokens(seq_views(toks@)),
{
    let n = toks.len();
    let mut k: usize = 0;
    let ghost tviews = seq_views(toks@);
    let ghost base = seq_views(deps@);
    proof {
        assert(tviews.skip(0) =~= tviews);
    }
    while k < n
        invariant
            n == toks@.len(),
            tviews == seq_views(toks@),
            k <= n,
            base + deps_of_tokens(tviews) =~= seq_views(deps@) + deps_of_tokens(
                tviews.skip(k as int),
            ),
        decreases n - k,
    {
        let ghost prev = seq_views(deps@);
        let tok: &String = &toks[k];
        if has_version_op_exec(tok.as_str()) {
            proof {
                assert(tviews.skip(k as int)[0] == tviews[k as int]);
                if k + 2 <= n {
                    assert(tviews.skip(k as int).skip(2) =~= tviews.skip(k + 2));
                }
            }
            if k + 1 < n {
                k += 2;
            } else {
                k += 1;
                proof {
                    assert(tviews.skip(k as int) =~= Seq::<Seq<char>>::empty());
                }
            }
        } else {
            deps.push(tok.clone());
            proof {
                assert(tviews.skip(k as int)[0] == tviews[k as int]);
                assert(seq_views(deps@) =~= prev.push(tok@));
                assert(tviews.skip(k as int).drop_first() =~= tviews.skip(k + 1));
            }
            k += 1;
        }
    }
    proof {
        assert(tviews.skip(n as int) =~= Seq::<Seq<char>>::empty());
    }
}

fn has_version_op_exec(tok: &str) -> (r: bool)
    ensures
        r == has_version_op(tok@),
{
    let n = tok.unicode_len();
    let mut i: usize = 0;
    while i < n
        invariant
            n == tok@.len(),
            i <= n,
            forall|j: int| 0 <= j < i ==> !(tok@[j] == '=' || tok@[j] == '<' || tok@[j] == '>'),
        decreases n - i,
    {
        let c = tok.get_char(i);
        if c == '=' || c == '<' || c == '>' {
            return true;
        }
        i += 1;
    }
    false
}

/// Collects the file name for each `-l` token among `toks`.
fn push_lib_tokens(libs: &mut Vec<String>, toks: &Vec<String>, t: &TargetTriplet)
    ensures
        seq_views(final(libs)@) == seq_views(old(libs)@) + libs_of_tokens(seq_views(toks@), t@),
{
    let n = toks.len();
    let mut k: usize = 0;
    let ghost tviews = seq_views(toks@);
    let ghost base = seq_views(libs@);
    proof {
        assert(tviews.skip(0) =~= tviews);
    }
    while k < n
        invariant
            n == toks@.len(),
            tviews == seq_views(toks@),
            k <= n,
            base + libs_of_tokens(tviews, t@) =~= seq_views(libs@) + libs_of_tokens(
                tviews.skip(k as int),
                t@,
            ),
        decreases n - k,
    {
        let ghost prev = seq_views(libs@);
        let tok: &String = &toks[k];
        proof {
            reveal_strlit("-l");
            assert(tviews.skip(k as int)[0] == tviews[k as int]);
            assert(tviews.skip(k as int).drop_first() =~= tviews.skip(k + 1));
        }
        if crate::text::has_prefix(tok.as_str(), "-l") {
            let name = link_file_name(tok.as_str(), t);
            libs.push(name);
            proof {
                assert(seq_views(libs@) =~= prev.push(link_flag_file_name(tok@, t@)));
            }
        }
        k += 1;
    }
    proof {
        assert(tviews.skip(n as int) =~= Seq::<Seq<char>>::empty());
    }
}

/// The records of all metadata files found for one port, queried as a set.
///
/// Records are kept in the order they were loaded, one per identifier; a
/// record loaded again under an identifier already present replaces the
/// earlier one. Where two records declare the same library file name, lookups
/// take the earliest record, so the tie among multiple declaring records is
/// broken by load order; which record wins is not part of any contract here.
#[derive(Debug)]
pub struct PcFiles {
    pub files: Vec<PcFile>,
}

impl View for PcFiles {
    type V = Seq<PcFileView>;

    open spec fn view(&self) -> Seq<PcFileView> {
        self.files@.map_values(|f: PcFile| f@)
    }
}

/// Index of the first record declaring `lib` among its library file names.
pub open spec fn locate_idx(files: Seq<PcFileView>, lib: Seq<char>) -> Option<int>
    decreases files.len(),
{
    if files.len() == 0 {
        None
    } else if files[0].libs.contains(lib) {
        Some(0int)
    } else {
        match locate_idx(files.drop_first(), lib) {
            Some(i) => Some(i + 1),
            None => None,
        }
    }
}

pub proof fn lemma_locate_idx(files: Seq<PcFileView>, lib: Seq<char>)
    ensures
        match locate_idx(files, lib) {
            Some(i) => 0 <= i < files.len() && files[i].libs.contains(lib) && (forall|j: int|
                0 <= j < i ==> !files[j].libs.contains(lib)),
            None => forall|j: int| 0 <= j < files.len() ==> !files[j].libs.contains(lib),
        },
    decreases files.len(),
{
    if files.len() > 0 && !files[0].libs.contains(lib) {
        lemma_locate_idx(files.drop_first(), lib);
        let t = files.drop_first();
        match locate_idx(t, lib) {
            Some(i) => {
                assert(files[i + 1] == t[i]);
                assert forall|j: int| 0 <= j < i + 1 implies !files[j].libs.contains(lib) by {
                    if j > 0 {
                        assert(t[j - 1] == files[j]);
                    }
                }
            },
            None => {
                assert forall|j: int| 0 <= j < files.len() implies !files[j].libs.contains(
                    lib,
                ) by {
                    if j > 0 {
                        assert(t[j - 1] == files[j]);
                    }
                }
            },
        }
    }
}

/// Index of the first record with the given identifier.
pub open spec fn find_id_idx(files: Seq<PcFileView>, id: Seq<char>) -> Option<int>
    decreases files.len(),
{
    if files.len() == 0 {
        None
    } else if files[0].id == id {
        Some(0int)
    } else {
        match find_id_idx(files.drop_first(), id) {
            Some(i) => Some(i + 1),
            None => None,
        }
    }
}

pub proof fn lemma_find_id_idx(files: Seq<PcFileView>, id: Seq<char>)
    ensures
        match find_id_idx(files, id) {
            Some(i) => 0 <= i < files.len() && files[i].id == id && (forall|j: int|
                0 <= j < i ==> files[j].id != id),
            None => forall|j: int| 0 <= j < files.len() ==> files[j].id != id,
        },
    decreases files.len(),
{
    if files.len() > 0 && files[0].id != id {
        lemma_find_id_idx(files.drop_first(), id);
        let t = files.drop_first();
        match find_id_idx(t, id) {
            Some(i) => {
                assert(files[i + 1] == t[i]);
                assert forall|j: int| 0 <= j < i + 1 implies files[j].id != id by {
                    if j > 0 {
                        assert(t[j - 1] == files[j]);
                    }
                }
            },
            None => {
                assert forall|j: int| 0 <= j < files.len() implies files[j].id != id by {
                    if j > 0 {
                        assert(t[j - 1] == files[j]);
                    }
                }
            },
        }
    }
}

/// The record with the given identifier, if any.
pub open spec fn find_by_id(files: Seq<PcFileView>, id: Seq<char>) -> Option<PcFileView> {
    match find_id_idx(files, id) {
        Some(i) => Some(files[i]),
        None => None,
    }
}

/// Adding a record under map semantics: a record with the same identifier is
/// replaced in place, otherwise the record is appended.
pub open spec fn add_record(files: Seq<PcFileView>, f: PcFileView) -> Seq<PcFileView> {
    match find_id_idx(files, f.id) {
        Some(i) => files.update(i, f),
        None => files.push(f),
    }
}

/// `x` moved to the back of `acc` if present; `acc` unchanged otherwise.
pub open spec fn move_to_end(acc: Seq<Seq<char>>, x: Seq<char>) -> Seq<Seq<char>> {
    match first_index_of(acc, x) {
        Some(i) => acc.remove(i).push(x),
        None => acc,
    }
}

/// Each of `xs`, in order, moved to the back of `acc` if present.
pub open spec fn move_all(acc: Seq<Seq<char>>, xs: Seq<Seq<char>>) -> Seq<Seq<char>>
    decreases xs.len(),
{
    if xs.len() == 0 {
        acc
    } else {
        move_all(move_to_end(acc, xs[0]), xs.drop_first())
    }
}

/// For each dependency identifier known among the records, the libraries that
/// record declares are moved to the back of `acc`.
pub open spec fn move_deps(
    files: Seq<PcFileView>,
    acc: Seq<Seq<char>>,
    deps: Seq<Seq<char>>,
) -> Seq<Seq<char>>
    decreases deps.len(),
{
    if deps.len() == 0 {
        acc
    } else {
        let acc1 = match find_by_id(files, deps[0]) {
            Some(d) => move_all(acc, d.libs),
            None => acc,
        };
        move_deps(files, acc1, deps.drop_first())
    }
}

/// One library appended, then the libraries its declaring record requires
/// pushed to the back.
pub open spec fn pass_step(
    files: Seq<PcFileView>,
    acc: Seq<Seq<char>>,
    lib: Seq<char>,
) -> Seq<Seq<char>> {
    let acc1 = acc.push(lib);
    match locate_idx(files, lib) {
        Some(i) => move_deps(files, acc1, files[i].deps),
        None => acc1,
    }
}

pub open spec fn spec_pass_from(
    files: Seq<PcFileView>,
    acc: Seq<Seq<char>>,
    libs: Seq<Seq<char>>,
) -> Seq<Seq<char>>
    decreases libs.len(),
{
    if libs.len() == 0 {
        acc
    } else {
        spec_pass_from(files, pass_step(files, acc, libs[0]), libs.drop_first())
    }
}

/// One refinement pass: the input scanned in order, each library appended,
/// and every already-seen library that the current library's record requires
/// moved to the back.
pub open spec fn spec_pass(files: Seq<PcFileView>, libs: Seq<Seq<char>>) -> Seq<Seq<char>> {
    spec_pass_from(files, Seq::empty(), libs)
}

/// The bounded fixed-point refinement: up to three passes, stopping at the
/// first fixed point, the last computed ordering otherwise.
pub open spec fn spec_refine(files: Seq<PcFileView>, libs: Seq<Seq<char>>) -> Seq<Seq<char>> {
    let l1 = spec_pass(files, libs);
    if l1 == libs {
        libs
    } else {
        let l2 = spec_pass(files, l1);
        if l2 == l1 {
            l1
        } else {
            spec_pass(files, l2)
        }
    }
}

/// The refinement reached a fixed point within its three passes.
pub open spec fn refine_converged(files: Seq<PcFileView>, libs: Seq<Seq<char>>) -> bool {
    let l1 = spec_pass(files, libs);
    let l2 = spec_pass(files, l1);
    let l3 = spec_pass(files, l2);
    l1 == libs || l2 == l1 || l3 == l2
}

/// A refinement that reached a fixed point returns one: its output passes
/// through a further refinement pass unchanged.
pub proof fn lemma_refine_fixpoint(files: Seq<PcFileView>, libs: Seq<Seq<char>>)
    requires
        refine_converged(files, libs),
    ensures
        spec_pass(files, spec_refine(files, libs)) == spec_refine(files, libs),
{
}

/// Idempotence of refinement: once a fixed point was reached, refining the
/// refiner's own output returns that output unchanged.
pub proof fn lemma_refine_idempotent(files: Seq<PcFileView>, libs: Seq<Seq<char>>)
    requires
        refine_converged(files, libs),
    ensures
        spec_refine(files, spec_refine(files, libs)) == spec_refine(files, libs),
{
    lemma_refine_fixpoint(files, libs);
}

/// `b` appears strictly after `a`.
pub open spec fn appears_after(s: Seq<Seq<char>>, a: Seq<char>, b: Seq<char>) -> bool {
    exists|p: int, q: int| 0 <= p < q < s.len() && s[p] == a && s[q] == b
}

/// Processing `lib`'s requirements moves `m` to the back: some required
/// record declares `m`.
pub open spec fn moves_lib(files: Seq<PcFileView>, deps: Seq<Seq<char>>, m: Seq<char>) -> bool {
    exists|k: int|
        0 <= k < deps.len() && #[trigger] find_by_id(files, deps[k]) is Some && find_by_id(
            files,
            deps[k],
        )->Some_0.libs.contains(m)
}

proof fn lemma_move_to_end_preserves_after(
    acc: Seq<Seq<char>>,
    x: Seq<char>,
    a: Seq<char>,
    b: Seq<char>,
)
    requires
        x != a,
        appears_after(acc, a, b),
    ensures
        appears_after(move_to_end(acc, x), a, b),
{
    crate::text::lemma_first_index_of(acc, x);
    match first_index_of(acc, x) {
        Some(i) => {
            let (p, q) = choose|p: int, q: int|
                0 <= p < q < acc.len() && acc[p] == a && acc[q] == b;
            let res = acc.remove(i).push(x);
            assert(p != i);
            let p2 = if p < i {
                p
            } else {
                p - 1
            };
            assert(res[p2] == a);
            if q == i {
                assert(res[res.len() - 1] == x && acc[q] == x);
                assert(p2 < res.len() - 1);
                assert(appears_after(res, a, b));
            } else {
                let q2 = if q < i {
                    q
                } else {
                    q - 1
                };
                assert(res[q2] == b);
                assert(p2 < q2);
                assert(appears_after(res, a, b));
            }
        },
        None => {},
    }
}

proof fn lemma_move_to_end_establishes(acc: Seq<Seq<char>>, x: Seq<char>, a: Seq<char>)
    requires
        x != a,
        acc.contains(x),
        acc.contains(a),
    ensures
        appears_after(move_to_end(acc, x), a, x),
{
    crate::text::lemma_first_index_of(acc, x);
    let i = first_index_of(acc, x)->Some_0;
    let res = acc.remove(i).push(x);
    let pa = choose|pa: int| 0 <= pa < acc.len() && acc[pa] == a;
    assert(pa != i);
    let p2 = if pa < i {
        pa
    } else {
        pa - 1
    };
    assert(res[p2] == a);
    assert(res[res.len() - 1] == x);
    assert(p2 < res.len() - 1);
    assert(appears_after(res, a, x));
}

proof fn lemma_move_to_end_contains(acc: Seq<Seq<char>>, x: Seq<char>, v: Seq<char>)
    requires
        acc.contains(v),
    ensures
        move_to_end(acc, x).contains(v),
{
    broadcast use vstd::seq_lib::group_to_multiset_ensures;

    lemma_move_to_end_multiset(acc, x);
    assert(acc.to_multiset().count(v) > 0);
    assert(move_to_end(acc, x).to_multiset().count(v) > 0);
}

proof fn lemma_move_all_preserves_after(
    acc: Seq<Seq<char>>,
    xs: Seq<Seq<char>>,
    a: Seq<char>,
    b: Seq<char>,
)
    requires
        forall|i: int| 0 <= i < xs.len() ==> xs[i] != a,
        appears_after(acc, a, b),
    ensures
        appears_after(move_all(acc, xs), a, b),
    decreases xs.len(),
{
    if xs.len() > 0 {
        lemma_move_to_end_preserves_after(acc, xs[0], a, b);
        assert(forall|i: int| 0 <= i < xs.len() - 1 ==> xs.drop_first()[i] == xs[i + 1]);
        lemma_move_all_preserves_after(move_to_end(acc, xs[0]), xs.drop_first(), a, b);
    }
}

proof fn lemma_move_all_contains(acc: Seq<Seq<char>>, xs: Seq<Seq<char>>, v: Seq<char>)
    requires
        acc.contains(v),
    ensures
        move_all(acc, xs).contains(v),
    decreases xs.len(),
{
    if xs.len() > 0 {
        lemma_move_to_end_contains(acc, xs[0], v);
        lemma_move_all_contains(move_to_end(acc, xs[0]), xs.drop_first(), v);
    }
}

proof fn lemma_move_all_establishes(
    acc: Seq<Seq<char>>,
    xs: Seq<Seq<char>>,
    a: Seq<char>,
    m: Seq<char>,
)
    requires
        forall|i: int| 0 <= i < xs.len() ==> xs[i] != a,
        xs.contains(m),
        acc.contains(m),
        acc.contains(a),
    ensures
        appears_after(move_all(acc, xs), a, m),
    decreases xs.len(),
{
    assert(m != a);
    assert(forall|i: int| 0 <= i < xs.len() - 1 ==> xs.drop_first()[i] == xs[i + 1]);
    if xs[0] == m {
        lemma_move_to_end_establishes(acc, m, a);
        lemma_move_all_preserves_after(move_to_end(acc, m), xs.drop_first(), a, m);
    } else {
        let j = choose|j: int| 0 <= j < xs.len() && xs[j] == m;
        assert(xs.drop_first()[j - 1] == m);
        assert(xs.drop_first().contains(m));
        lemma_move_to_end_contains(acc, xs[0], m);
        lemma_move_to_end_contains(acc, xs[0], a);
        lemma_move_all_establishes(move_to_end(acc, xs[0]), xs.drop_first(), a, m);
    }
}

proof fn lemma_move_deps_preserves_after(
    files: Seq<PcFileView>,
    acc: Seq<Seq<char>>,
    deps: Seq<Seq<char>>,
    a: Seq<char>,
    b: Seq<char>,
)
    requires
        !moves_lib(files, deps, a),
        appears_after(acc, a, b),
    ensures
        appears_after(move_deps(files, acc, deps), a, b),
    decreases deps.len(),
{
    if deps.len() > 0 {
        assert(forall|i: int| 0 <= i < deps.len() - 1 ==> deps.drop_first()[i] == deps[i + 1]);
        let acc1 = match find_by_id(files, deps[0]) {
            Some(d) => move_all(acc, d.libs),
            None => acc,
        };
        match find_by_id(files, deps[0]) {
            Some(d) => {
                assert(!d.libs.contains(a));
                lemma_move_all_preserves_after(acc, d.libs, a, b);
            },
            None => {},
        }
        assert(!moves_lib(files, deps.drop_first(), a)) by {
            if moves_lib(files, deps.drop_first(), a) {
                let k = choose|k: int|
                    0 <= k < deps.drop_first().len() && #[trigger] find_by_id(
                        files,
                        deps.drop_first()[k],
                    ) is Some && find_by_id(files, deps.drop_first()[k])->Some_0.libs.contains(a);
                assert(deps[k + 1] == deps.drop_first()[k]);
                assert(moves_lib(files, deps, a));
            }
        }
        lemma_move_deps_preserves_after(files, acc1, deps.drop_first(), a, b);
    }
}

proof fn lemma_move_deps_contains(
    files: Seq<PcFileView>,
    acc: Seq<Seq<char>>,
    deps: Seq<Seq<char>>,
    v: Seq<char>,
)
    requires
        acc.contains(v),
    ensures
        move_deps(files, acc, deps).contains(v),
    decreases deps.len(),
{
    if deps.len() > 0 {
        let acc1 = match find_by_id(files, deps[0]) {
            Some(d) => move_all(acc, d.libs),
            None => acc,
        };
        match find_by_id(files, deps[0]) {
            Some(d) => {
                lemma_move_all_contains(acc, d.libs, v);
            },
            None => {},
        }
        lemma_move_deps_contains(files, acc1, deps.drop_first(), v);
    }
}

proof fn lemma_move_deps_establishes(
    files: Seq<PcFileView>,
    acc: Seq<Seq<char>>,
    deps: Seq<Seq<char>>,
    a: Seq<char>,
    m: Seq<char>,
)
    requires
        !moves_lib(files, deps, a),
        moves_lib(files, deps, m),
        acc.contains(m),
        acc.contains(a),
    ensures
        appears_after(move_deps(files, acc, deps), a, m),
    decreases deps.len(),
{
    assert(deps.len() > 0);
    assert(forall|i: int| 0 <= i < deps.len() - 1 ==> deps.drop_first()[i] == deps[i + 1]);
    let acc1 = match find_by_id(files, deps[0]) {
        Some(d) => move_all(acc, d.libs),
        None => acc,
    };
    assert(!moves_lib(files, deps.drop_first(), a)) by {
        if moves_lib(files, deps.drop_first(), a) {
            let k = choose|k: int|
                0 <= k < deps.drop_first().len() && #[trigger] find_by_id(
                    files,
                    deps.drop_first()[k],
                ) is Some && find_by_id(files, deps.drop_first()[k])->Some_0.libs.contains(a);
            assert(deps[k + 1] == deps.drop_first()[k]);
            assert(moves_lib(files, deps, a));
        }
    }
    let k = choose|k: int|
        0 <= k < deps.len() && #[trigger] find_by_id(files, deps[k]) is Some && find_by_id(
            files,
            deps[k],
        )->Some_0.libs.contains(m);
    if k == 0 {
        let d = find_by_id(files, deps[0])->Some_0;
        assert(!d.libs.contains(a));
        lemma_move_all_establishes(acc, d.libs, a, m);
        lemma_move_deps_preserves_after(files, acc1, deps.drop_first(), a, m);
    } else {
        assert(deps.drop_first()[k - 1] == deps[k]);
        assert(moves_lib(files, deps.drop_first(), m));
        match find_by_id(files, deps[0]) {
            Some(d) => {
                assert(!d.libs.contains(a));
                lemma_move_all_contains(acc, d.libs, m);
                lemma_move_all_contains(acc, d.libs, a);
            },
            None => {},
        }
        lemma_move_deps_establishes(files, acc1, deps.drop_first(), a, m);
    }
}

/// Required-after within one pass step: when the pass appends a library whose
/// record requires other records, every already-seen library those records
/// declare is moved strictly behind it — provided the record does not declare
/// the appended library's own file among its requirements.
pub proof fn lemma_pass_step_required_after(
    files: Seq<PcFileView>,
    acc: Seq<Seq<char>>,
    lib: Seq<char>,
    m: Seq<char>,
)
    requires
        locate_idx(files, lib) is Some,
        moves_lib(files, files[locate_idx(files, lib)->Some_0].deps, m),
        !moves_lib(files, files[locate_idx(files, lib)->Some_0].deps, lib),
        acc.contains(m),
    ensures
        appears_after(pass_step(files, acc, lib), lib, m),
{
    lemma_locate_idx(files, lib);
    let deps = files[locate_idx(files, lib)->Some_0].deps;
    let acc1 = acc.push(lib);
    assert(acc1[acc1.len() - 1] == lib);
    assert(acc1.contains(lib));
    let j = choose|j: int| 0 <= j < acc.len() && acc[j] == m;
    assert(acc1[j] == m);
    assert(acc1.contains(m));
    lemma_move_deps_establishes(files, acc1, deps, lib, m);
}

/// Processing the library `e` moves `m` to the back: `e`'s declaring record
/// requires a record that declares `m`.
pub open spec fn step_moves(files: Seq<PcFileView>, e: Seq<char>, m: Seq<char>) -> bool {
    match locate_idx(files, e) {
        Some(i) => moves_lib(files, files[i].deps, m),
        None => false,
    }
}

proof fn lemma_pass_step_preserves_after(
    files: Seq<PcFileView>,
    acc: Seq<Seq<char>>,
    e: Seq<char>,
    a: Seq<char>,
    b: Seq<char>,
)
    requires
        !step_moves(files, e, a),
        appears_after(acc, a, b),
    ensures
        appears_after(pass_step(files, acc, e), a, b),
{
    let acc1 = acc.push(e);
    let (p, q) = choose|p: int, q: int| 0 <= p < q < acc.len() && acc[p] == a && acc[q] == b;
    assert(acc1[p] == a && acc1[q] == b);
    assert(appears_after(acc1, a, b));
    match locate_idx(files, e) {
        Some(i) => {
            lemma_move_deps_preserves_after(files, acc1, files[i].deps, a, b);
        },
        None => {},
    }
}

proof fn lemma_pass_step_contains(
    files: Seq<PcFileView>,
    acc: Seq<Seq<char>>,
    e: Seq<char>,
    v: Seq<char>,
)
    requires
        acc.contains(v) || v == e,
    ensures
        pass_step(files, acc, e).contains(v),
{
    let acc1 = acc.push(e);
    assert(acc1.contains(v)) by {
        if v == e {
            assert(acc1[acc1.len() - 1] == v);
        } else {
            let j = choose|j: int| 0 <= j < acc.len() && acc[j] == v;
            assert(acc1[j] == v);
        }
    }
    match locate_idx(files, e) {
        Some(i) => {
            lemma_move_deps_contains(files, acc1, files[i].deps, v);
        },
        None => {},
    }
}

proof fn lemma_pass_from_preserves_after(
    files: Seq<PcFileView>,
    acc: Seq<Seq<char>>,
    rem: Seq<Seq<char>>,
    a: Seq<char>,
    b: Seq<char>,
)
    requires
        forall|i: int| 0 <= i < rem.len() ==> !step_moves(files, #[trigger] rem[i], a),
        appears_after(acc, a, b),
    ensures
        appears_after(spec_pass_from(files, acc, rem), a, b),
    decreases rem.len(),
{
    if rem.len() > 0 {
        lemma_pass_step_preserves_after(files, acc, rem[0], a, b);
        assert(forall|i: int| 0 <= i < rem.len() - 1 ==> rem.drop_first()[i] == rem[i + 1]);
        lemma_pass_from_preserves_after(
            files,
            pass_step(files, acc, rem[0]),
            rem.drop_first(),
            a,
            b,
        );
    }
}

/// The pass state after the first `k` libraries have been processed.
pub open spec fn pass_prefix(files: Seq<PcFileView>, libs: Seq<Seq<char>>, k: int) -> Seq<
    Seq<char>,
>
    decreases k,
{
    if k <= 0 {
        Seq::empty()
    } else {
        pass_step(files, pass_prefix(files, libs, k - 1), libs[k - 1])
    }
}

proof fn lemma_pass_prefix_rest(files: Seq<PcFileView>, libs: Seq<Seq<char>>, k: int)
    requires
        0 <= k <= libs.len(),
    ensures
        spec_pass(files, libs) == spec_pass_from(files, pass_prefix(files, libs, k), libs.skip(k)),
    decreases k,
{
    if k == 0 {
        assert(libs.skip(0) =~= libs);
    } else {
        lemma_pass_prefix_rest(files, libs, k - 1);
        let rem = libs.skip(k - 1);
        assert(rem[0] == libs[k - 1]);
        assert(rem.drop_first() =~= libs.skip(k));
    }
}

proof fn lemma_pass_prefix_contains(files: Seq<PcFileView>, libs: Seq<Seq<char>>, k: int, j: int)
    requires
        0 <= j < k <= libs.len(),
    ensures
        pass_prefix(files, libs, k).contains(libs[j]),
    decreases k,
{
    if j == k - 1 {
        lemma_pass_step_contains(files, pass_prefix(files, libs, k - 1), libs[k - 1], libs[j]);
    } else {
        lemma_pass_prefix_contains(files, libs, k - 1, j);
        lemma_pass_step_contains(files, pass_prefix(files, libs, k - 1), libs[k - 1], libs[j]);
    }
}

proof fn lemma_fixpoint_mover_exists(files: Seq<PcFileView>, y: Seq<Seq<char>>, j: int, k: int)
    requires
        spec_pass(files, y) == y,
        y.no_duplicates(),
        forall|i: int| 0 <= i < y.len() ==> !step_moves(files, #[trigger] y[i], y[i]),
        0 <= j < k < y.len(),
        step_moves(files, y[k], y[j]),
    ensures
        exists|m: int| k < m < y.len() && step_moves(files, #[trigger] y[m], y[k]),
{
    if !(exists|m: int| k < m < y.len() && step_moves(files, #[trigger] y[m], y[k])) {
        let state = pass_prefix(files, y, k);
        lemma_pass_prefix_contains(files, y, k, j);
        lemma_pass_step_required_after(files, state, y[k], y[j]);
        let after_step = pass_prefix(files, y, k + 1);
        assert(appears_after(after_step, y[k], y[j]));
        let rem = y.skip(k + 1);
        assert forall|i: int| 0 <= i < rem.len() implies !step_moves(
            files,
            #[trigger] rem[i],
            y[k],
        ) by {
            assert(rem[i] == y[k + 1 + i]);
        }
        lemma_pass_from_preserves_after(files, after_step, rem, y[k], y[j]);
        lemma_pass_prefix_rest(files, y, k + 1);
        assert(appears_after(y, y[k], y[j]));
        let (p, q) = choose|p: int, q: int| 0 <= p < q < y.len() && y[p] == y[k] && y[q] == y[j];
        assert(p == k && q == j);
        assert(false);
    }
}

proof fn lemma_fixpoint_ordered_at(files: Seq<PcFileView>, y: Seq<Seq<char>>, k: int)
    requires
        spec_pass(files, y) == y,
        y.no_duplicates(),
        forall|i: int| 0 <= i < y.len() ==> !step_moves(files, #[trigger] y[i], y[i]),
        0 <= k < y.len(),
    ensures
        forall|j: int| 0 <= j < k ==> !(#[trigger] step_moves(files, y[k], y[j])),
    decreases y.len() - k,
{
    assert forall|j: int| 0 <= j < k implies !(#[trigger] step_moves(files, y[k], y[j])) by {
        if step_moves(files, y[k], y[j]) {
            lemma_fixpoint_mover_exists(files, y, j, k);
            let m = choose|m: int| k < m < y.len() && step_moves(files, #[trigger] y[m], y[k]);
            lemma_fixpoint_ordered_at(files, y, m);
            assert(!step_moves(files, y[m], y[k]));
        }
    }
}

/// Dependency-after ordering: when the refinement reached a fixed point
/// within its three passes, then for every pair where `a`'s declaring record
/// requires a record that declares `b`, both present in a duplicate-free
/// input in which no library's record requires that library's own file, the
/// output places `b` strictly after `a`.
pub proof fn lemma_refine_dependency_after(
    files: Seq<PcFileView>,
    libs: Seq<Seq<char>>,
    a: Seq<char>,
    b: Seq<char>,
)
    requires
        refine_converged(files, libs),
        libs.no_duplicates(),
        forall|i: int| 0 <= i < libs.len() ==> !step_moves(files, #[trigger] libs[i], libs[i]),
        libs.contains(a),
        libs.contains(b),
        step_moves(files, a, b),
    ensures
        appears_after(spec_refine(files, libs), a, b),
{
    broadcast use vstd::seq_lib::group_to_multiset_ensures;

    let out = spec_refine(files, libs);
    lemma_refine_fixpoint(files, libs);
    lemma_refine_multiset(files, libs);
    libs.lemma_multiset_has_no_duplicates();
    out.lemma_multiset_has_no_duplicates_conv();
    assert(out.contains(a)) by {
        assert(libs.to_multiset().count(a) > 0);
        assert(out.to_multiset().count(a) > 0);
    }
    assert(out.contains(b)) by {
        assert(libs.to_multiset().count(b) > 0);
        assert(out.to_multiset().count(b) > 0);
    }
    assert forall|i: int| 0 <= i < out.len() implies !step_moves(
        files,
        #[trigger] out[i],
        out[i],
    ) by {
        assert(out.to_multiset().count(out[i]) > 0);
        assert(libs.to_multiset().count(out[i]) > 0);
        assert(libs.contains(out[i]));
        let w = choose|w: int| 0 <= w < libs.len() && libs[w] == out[i];
        assert(!step_moves(files, libs[w], libs[w]));
    }
    // A record never requires its own library, so the pair is distinct.
    let wa = choose|w: int| 0 <= w < libs.len() && libs[w] == a;
    assert(a != b) by {
        assert(!step_moves(files, libs[wa], libs[wa]));
    }
    let pa = choose|p: int| 0 <= p < out.len() && out[p] == a;
    let pb = choose|q: int| 0 <= q < out.len() && out[q] == b;
    assert(pa != pb);
    if pb < pa {
        lemma_fixpoint_ordered_at(files, out, pa);
        assert(step_moves(files, out[pa], out[pb]));
        assert(!step_moves(files, out[pa], out[pb]));
    }
    assert(appears_after(out, a, b));
}

pub proof fn lemma_move_to_end_multiset(acc: Seq<Seq<char>>, x: Seq<char>)
    ensures
        move_to_end(acc, x).to_multiset() == acc.to_multiset(),
{
    broadcast use vstd::seq_lib::group_to_multiset_ensures;

    match first_index_of(acc, x) {
        Some(i) => {
            crate::text::lemma_first_index_of(acc, x);
            assert(acc.remove(i).to_multiset() =~= acc.to_multiset().remove(x));
            assert(acc.remove(i).push(x).to_multiset() =~= acc.to_multiset().remove(x).insert(x));
            assert(acc.contains(x));
            assert(acc.to_multiset().count(x) > 0);
            assert(acc.to_multiset().remove(x).insert(x) =~= acc.to_multiset());
        },
        None => {},
    }
}

pub proof fn lemma_move_all_multiset(acc: Seq<Seq<char>>, xs: Seq<Seq<char>>)
    ensures
        move_all(acc, xs).to_multiset() == acc.to_multiset(),
    decreases xs.len(),
{
    if xs.len() > 0 {
        lemma_move_to_end_multiset(acc, xs[0]);
        lemma_move_all_multiset(move_to_end(acc, xs[0]), xs.drop_first());
    }
}

pub proof fn lemma_move_deps_multiset(
    files: Seq<PcFileView>,
    acc: Seq<Seq<char>>,
    deps: Seq<Seq<char>>,
)
    ensures
        move_deps(files, acc, deps).to_multiset() == acc.to_multiset(),
    decreases deps.len(),
{
    if deps.len() > 0 {
        let acc1 = match find_by_id(files, deps[0]) {
            Some(d) => move_all(acc, d.libs),
            None => acc,
        };
        match find_by_id(files, deps[0]) {
            Some(d) => {
                lemma_move_all_multiset(acc, d.libs);
            },
            None => {},
        }
        lemma_move_deps_multiset(files, acc1, deps.drop_first());
    }
}

pub proof fn lemma_pass_step_multiset(files: Seq<PcFileView>, acc: Seq<Seq<char>>, lib: Seq<char>)
    ensures
        pass_step(files, acc, lib).to_multiset() == acc.to_multiset().insert(lib),
{
    broadcast use vstd::seq_lib::group_to_multiset_ensures;

    match locate_idx(files, lib) {
        Some(i) => {
            lemma_move_deps_multiset(files, acc.push(lib), files[i].deps);
        },
        None => {},
    }
}

pub proof fn lemma_pass_from_multiset(
    files: Seq<PcFileView>,
    acc: Seq<Seq<char>>,
    libs: Seq<Seq<char>>,
)
    ensures
        spec_pass_from(files, acc, libs).to_multiset() == acc.to_multiset().add(libs.to_multiset()),
    decreases libs.len(),
{
    broadcast use vstd::seq_lib::group_to_multiset_ensures;

    if libs.len() == 0 {
        assert(libs.to_multiset() =~= Multiset::<Seq<char>>::empty());
        assert(acc.to_multiset().add(libs.to_multiset()) =~= acc.to_multiset());
    } else {
        lemma_pass_step_multiset(files, acc, libs[0]);
        lemma_pass_from_multiset(files, pass_step(files, acc, libs[0]), libs.drop_first());
        assert(libs.drop_first().push(libs[0]).to_multiset() =~= libs.drop_first().to_multiset()
            .insert(libs[0]));
        assert(libs.drop_first().push(libs[0]).to_multiset() =~= libs.to_multiset()) by {
            vstd::seq_lib::lemma_multiset_commutative(seq![libs[0]], libs.drop_first());
            vstd::seq_lib::lemma_multiset_commutative(libs.drop_first(), seq![libs[0]]);
            assert(seq![libs[0]] + libs.drop_first() =~= libs);
            assert(libs.drop_first() + seq![libs[0]] =~= libs.drop_first().push(libs[0]));
        }
        assert(spec_pass_from(files, acc, libs).to_multiset() =~= acc.to_multiset().add(
            libs.to_multiset(),
        ));
    }
}

/// Multiset preservation of one pass: only the order changes.
pub proof fn lemma_pass_multiset(files: Seq<PcFileView>, libs: Seq<Seq<char>>)
    ensures
        spec_pass(files, libs).to_multiset() == libs.to_multiset(),
{
    broadcast use vstd::seq_lib::group_to_multiset_ensures;

    lemma_pass_from_multiset(files, Seq::empty(), libs);
    assert(Seq::<Seq<char>>::empty().to_multiset().add(libs.to_multiset()) =~= libs.to_multiset());
}

/// Multiset preservation of refinement: the output holds exactly the entries
/// of the input, only reordered — never added, dropped, or duplicated.
pub proof fn lemma_refine_multiset(files: Seq<PcFileView>, libs: Seq<Seq<char>>)
    ensures
        spec_refine(files, libs).to_multiset() == libs.to_multiset(),
{
    let l1 = spec_pass(files, libs);
    let l2 = spec_pass(files, l1);
    lemma_pass_multiset(files, libs);
    lemma_pass_multiset(files, l1);
    lemma_pass_multiset(files, l2);
}

impl PcFiles {
    /// An empty record set.
    pub fn new() -> (r: PcFiles)
        ensures
            r@ == Seq::<PcFileView>::empty(),
    {
        let r = PcFiles { files: Vec::new() };
        proof {
            assert(r@ =~= Seq::<PcFileView>::empty());
        }
        r
    }

    /// Adds one record, replacing any record of the same identifier.
    pub fn add(&mut self, f: PcFile)
        ensures
            final(self)@ == add_record(old(self)@, f@),
    {
        let ghost fviews = self@;
        let n = self.files.len();
        let mut i: usize = 0;
        while i < n
            invariant
                n == self.files@.len(),
                i <= n,
                self@ == fviews,
                self.files@ == old(self).files@,
                forall|j: int| 0 <= j < i ==> fviews[j].id != f@.id,
            decreases n - i,
        {
            if crate::text::str_eq(self.files[i].id.as_str(), f.id.as_str()) {
                proof {
                    assert(fviews[i as int].id == f@.id);
                    lemma_find_id_idx(fviews, f@.id);
                    match find_id_idx(fviews, f@.id) {
                        Some(k) => {
                            assert(!(k < i) && !(i < k));
                        },
                        None => {
                            assert(fviews[i as int].id == f@.id);
                        },
                    }
                }
                self.files.set(i, f);
                proof {
                    assert(self@ =~= fviews.update(i as int, f@));
                }
                return ;
            }
            assert(fviews[i as int].id != f@.id);
            i += 1;
        }
        proof {
            lemma_find_id_idx(fviews, f@.id);
            if find_id_idx(fviews, f@.id) is Some {
                let k = find_id_idx(fviews, f@.id)->Some_0;
                assert(fviews[k].id == f@.id);
            }
        }
        self.files.push(f);
        proof {
            assert(self@ =~= fviews.push(f@));
        }
    }

    /// Locates the first record that declares this library file name, if any.
    pub fn locate_pc_file_by_lib(&self, lib: &str) -> (r: Option<&PcFile>)
        ensures
            match r {
                Some(f) => locate_idx(self@, lib@) is Some && f@ == self@[locate_idx(
                    self@,
                    lib@,
                )->Some_0],
                None => locate_idx(self@, lib@) is None,
            },
    {
        let n = self.files.len();
        let mut i: usize = 0;
        while i < n
            invariant
                n == self.files@.len(),
                i <= n,
                forall|j: int| 0 <= j < i ==> !self@[j].libs.contains(lib@),
            decreases n - i,
        {
            if crate::text::vec_contains_str(&self.files[i].libs, lib) {
                proof {
                    assert(self@[i as int].libs.contains(lib@));
                    lemma_locate_idx(self@, lib@);
                    match locate_idx(self@, lib@) {
                        Some(k) => {
                            assert(!(k < i) && !(i < k));
                        },
                        None => {},
                    }
                }
                return Some(&self.files[i]);
            }
            assert(!self@[i as int].libs.contains(lib@));
            i += 1;
        }
        proof {
            lemma_locate_idx(self@, lib@);
            if locate_idx(self@, lib@) is Some {
                let k = locate_idx(self@, lib@)->Some_0;
                assert(self@[k].libs.contains(lib@));
            }
        }
        None
    }

    /// The record with the given identifier, if any.
    fn get_by_id(&self, id: &str) -> (r: Option<&PcFile>)
        ensures
            match r {
                Some(f) => find_by_id(self@, id@) == Some(f@),
                None => find_by_id(self@, id@) is None,
            },
    {
        let n = self.files.len();
        let mut i: usize = 0;
        while i < n
            invariant
                n == self.files@.len(),
                i <= n,
                forall|j: int| 0 <= j < i ==> self@[j].id != id@,
            decreases n - i,
        {
            if crate::text::str_eq(self.files[i].id.as_str(), id) {
                proof {
                    assert(self@[i as int].id == id@);
                    lemma_find_id_idx(self@, id@);
                    match find_id_idx(self@, id@) {
                        Some(k) => {
                            assert(!(k < i) && !(i < k));
                        },
                        None => {},
                    }
                }
                return Some(&self.files[i]);
            }
            assert(self@[i as int].id != id@);
            i += 1;
        }
        proof {
            lemma_find_id_idx(self@, id@);
            if find_id_idx(self@, id@) is Some {
                let k = find_id_idx(self@, id@)->Some_0;
                assert(self@[k].id == id@);
            }
        }
        None
    }

    /// One refinement pass over `libs`.
    fn ordering_pass(&self, libs: &Vec<String>) -> (r: Vec<String>)
        ensures
            seq_views(r@) == spec_pass(self@, seq_views(libs@)),
    {
        let mut acc: Vec<String> = Vec::new();
        let ghost lviews = seq_views(libs@);
        let n = libs.len();
        let mut k: usize = 0;
        proof {
            assert(lviews.skip(0) =~= lviews);
            assert(seq_views(acc@) =~= Seq::<Seq<char>>::empty());
        }
        while k < n
            invariant
                n == libs@.len(),
                lviews == seq_views(libs@),
                k <= n,
                spec_pass(self@, lviews) == spec_pass_from(
                    self@,
                    seq_views(acc@),
                    lviews.skip(k as int),
                ),
            decreases n - k,
        {
            let ghost entry_acc = seq_views(acc@);
            proof {
                assert(lviews.skip(k as int)[0] == lviews[k as int]);
                assert(lviews.skip(k as int).drop_first() =~= lviews.skip(k + 1));
            }
            let lib: &String = &libs[k];
            acc.push(lib.clone());
            proof {
                assert(seq_views(acc@) =~= entry_acc.push(lib@));
            }
            match self.locate_pc_file_by_lib(lib.as_str()) {
                Some(pc) => {
                    let ghost target = pass_step(self@, entry_acc, lib@);
                    let ghost dviews = seq_views(pc.deps@);
                    let dn = pc.deps.len();
                    let mut di: usize = 0;
                    proof {
                        assert(dviews.skip(0) =~= dviews);
                    }
                    while di < dn
                        invariant
                            dn == pc.deps@.len(),
                            dviews == seq_views(pc.deps@),
                            di <= dn,
                            target == move_deps(self@, seq_views(acc@), dviews.skip(di as int)),
                        decreases dn - di,
                    {
                        proof {
                            assert(dviews.skip(di as int)[0] == dviews[di as int]);
                            assert(dviews.skip(di as int).drop_first() =~= dviews.skip(di + 1));
                        }
                        let dep: &String = &pc.deps[di];
                        match self.get_by_id(dep.as_str()) {
                            Some(dpc) => {
                                let ghost dep_acc = seq_views(acc@);
                                let ghost lvs = seq_views(dpc.libs@);
                                let ln = dpc.libs.len();
                                let mut li: usize = 0;
                                proof {
                                    assert(lvs.skip(0) =~= lvs);
                                }
                                while li < ln
                                    invariant
                                        ln == dpc.libs@.len(),
                                        lvs == seq_views(dpc.libs@),
                                        li <= ln,
                                        move_all(dep_acc, lvs) == move_all(
                                            seq_views(acc@),
                                            lvs.skip(li as int),
                                        ),
                                    decreases ln - li,
                                {
                                    proof {
                                        assert(lvs.skip(li as int)[0] == lvs[li as int]);
                                        assert(lvs.skip(li as int).drop_first() =~= lvs.skip(
                                            li + 1,
                                        ));
                                    }
                                    let dep_lib: &String = &dpc.libs[li];
                                    let ghost before = acc@;
                                    let moved = crate::remove_item(&mut acc, dep_lib);
                                    match moved {
                                        Some(m) => {
                                            proof {
                                                crate::text::lemma_first_index_of(
                                                    seq_views(before),
                                                    dep_lib@,
                                                );
                                                let mi = first_index_of(
                                                    seq_views(before),
                                                    dep_lib@,
                                                )->Some_0;
                                                crate::text::lemma_seq_views_remove(before, mi);
                                            }
                                            let ghost mid = acc@;
                                            acc.push(m);
                                            proof {
                                                let mi = first_index_of(
                                                    seq_views(before),
                                                    dep_lib@,
                                                )->Some_0;
                                                crate::text::lemma_seq_views_push(
                                                    mid,
                                                    before[mi],
                                                );
                                                assert(seq_views(acc@) == move_to_end(
                                                    seq_views(before),
                                                    dep_lib@,
                                                ));
                                            }
                                        },
                                        None => {
                                            proof {
                                                assert(seq_views(acc@) == move_to_end(
                                                    seq_views(before),
                                                    dep_lib@,
                                                ));
                                            }
                                        },
                                    }
                                    li += 1;
                                }
                                proof {
                                    assert(lvs.skip(ln as int)
                                        =~= Seq::<Seq<char>>::empty());
                                }
                            },
                            None => {},
                        }
                        di += 1;
                    }
                    proof {
                        assert(dviews.skip(dn as int) =~= Seq::<Seq<char>>::empty());
                    }
                },
                None => {},
            }
            k += 1;
        }
        proof {
            assert(lviews.skip(n as int) =~= Seq::<Seq<char>>::empty());
        }
        acc
    }

    /// Whether refining `libs` reaches a fixed point within the three passes
    /// [`PcFiles::fix_ordering`] is bounded to. A caller that wants to warn
    /// about a best-effort ordering, as the package manager's helper does,
    /// asks here.
    pub fn ordering_converged(&self, libs: &Vec<String>) -> (r: bool)
        ensures
            r == refine_converged(self@, seq_views(libs@)),
    {
        let l1 = self.ordering_pass(libs);
        if crate::text::vec_str_eq(&l1, libs) {
            return true;
        }
        let l2 = self.ordering_pass(&l1);
        if crate::text::vec_str_eq(&l2, &l1) {
            return true;
        }
        let l3 = self.ordering_pass(&l2);
        crate::text::vec_str_eq(&l3, &l2)
    }

    /// Refines the link order of `libs` using the loaded records: a bounded
    /// iterative fixed-point pass that moves each library after the libraries
    /// that require it. The result holds exactly the entries of the input,
    /// only reordered; when the bound does not suffice it is the last
    /// computed ordering, which [`PcFiles::ordering_converged`] tells apart.
    pub fn fix_ordering(&self, libs: Vec<String>) -> (r: Vec<String>)
        ensures
            seq_views(r@) == spec_refine(self@, seq_views(libs@)),
            seq_views(r@).to_multiset() == seq_views(libs@).to_multiset(),
    {
        proof {
            lemma_refine_multiset(self@, seq_views(libs@));
        }
        let l1 = self.ordering_pass(&libs);
        if crate::text::vec_str_eq(&l1, &libs) {
            return libs;
        }
        let l2 = self.ordering_pass(&l1);
        if crate::text::vec_str_eq(&l2, &l1) {
            return l1;
        }
        let l3 = self.ordering_pass(&l2);
        l3
    }
}

/// Reconstructs the on-disk file name a `-l` token names under the target.
fn link_file_name(tok: &str, t: &TargetTriplet) -> (r: String)
    ensures
        r@ == link_flag_file_name(tok@, t@),
{
    proof {
        reveal_strlit("-l");
        reveal_strlit("lib");
        reveal_strlit("");
    }
    let mut start: usize = 0;
    let tlen = tok.unicode_len();
    proof {
        assert(tok@.skip(0) =~= tok@);
    }
    while start < tlen && tlen - start >= 2 && tok.get_char(start) == '-' && tok.get_char(start + 1)
        == 'l'
        invariant
            tlen == tok@.len(),
            start <= tlen,
            strip_link_flag(tok@) == strip_link_flag(tok@.skip(start as int)),
        decreases tlen - start,
    {
        proof {
            reveal_strlit("-l");
            let cur = tok@.skip(start as int);
            assert(cur[0] == tok@[start as int] && cur[1] == tok@[start + 1]);
            assert(cur.subrange(0, 2) =~= "-l"@);
            assert(spec_starts_with(cur, "-l"@));
            assert(cur.skip(2) =~= tok@.skip(start + 2));
        }
        start += 2;
    }
    proof {
        reveal_strlit("-l");
        let cur = tok@.skip(start as int);
        if spec_starts_with(cur, "-l"@) && cur.len() >= 2 {
            assert(cur[0] == cur.subrange(0, 2)[0] && cur[1] == cur.subrange(0, 2)[1]);
            assert(cur[0] == tok@[start as int]);
            assert(start + 2 <= tlen && tok@[start as int] == '-' && tok@[start + 1] == 'l');
        }
        assert(strip_link_flag(cur) == cur);
    }
    let stem = tok.substring_char(start, tlen);
    let mut r = if t.strip_lib_prefix {
        String::from_str("lib")
    } else {
        String::from_str("")
    };
    crate::text::append_str(&mut r, stem);
    crate::text::push_char(&mut r, '.');
    crate::text::append_str(&mut r, t.lib_suffix.as_str());
    proof {
        assert(r@ =~= link_flag_file_name(tok@, t@));
    }
    r
}

} // verus!
