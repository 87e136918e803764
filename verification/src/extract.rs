//! The extraction engine: which files of a bundle are emitted (the
//! cross-bundle first-occurrence policy and the dictionary filter), how
//! artifact paths are formed, and the dispatch of each file to its
//! format-specific parser or the raw writer.
use vstd::prelude::*;
use crate::bundle::Bundle;
use crate::bundle::RecordModel;
use crate::bytes::hex_bytes;
use crate::dupes::DuplicateMap;
use crate::hash::dict_get;
use crate::hash::murmur64a;
use crate::hash::Dictionary;
use crate::hash::ExtensionTable;
use crate::json::lit;
use crate::scoped_fs::ScopedFs;

verus! {

/// A handle for the external block decompressor the run was started with.
/// The codec itself is a native library loaded by the embedding program;
/// the engine only requires that one was resolved.
pub struct Oodle {}

/// Everything a run needs: the bundle location, the output sink, the
/// decompressor handle, the dictionary, and the mode toggles.
pub struct ExtractOptions {
    pub target: Vec<u8>,
    pub out: ScopedFs,
    pub oodle: Oodle,
    pub dictionary: Dictionary,
    pub skip_extract: bool,
    pub skip_unknown: bool,
    pub as_blob: bool,
    pub extract_lua_source: bool,
    pub exts: ExtensionTable,
}

/// One decoded output: where it goes under the output root, and its bytes.
#[derive(Debug)]
pub struct Artifact {
    pub path: Vec<u8>,
    pub data: Vec<u8>,
}

impl Artifact {
    /// The artifact as its mathematical view.
    pub open spec fn model(&self) -> (Seq<u8>, Seq<u8>) {
        (self.path@, self.data@)
    }
}

/// The views of a sequence of artifacts.
pub open spec fn art_models(arts: Seq<Artifact>) -> Seq<(Seq<u8>, Seq<u8>)> {
    arts.map_values(|a: Artifact| a.model())
}

/// The label an extension hash gets in paths: its string when the table
/// knows it, else the hash in hexadecimal.
pub open spec fn ext_label(exts: Seq<(u64, Seq<u8>)>, ext: u64) -> Seq<u8> {
    match dict_get(exts, ext) {
        Option::Some(s) => s,
        Option::None => hex_bytes(ext, 16),
    }
}

/// The path stem of a file: its dictionary name when known, else the
/// extension label as a directory and the name hash in hexadecimal.
pub open spec fn stem_path(
    dict: Seq<(u64, Seq<u8>)>,
    exts: Seq<(u64, Seq<u8>)>,
    ext: u64,
    name: u64,
) -> Seq<u8> {
    match dict_get(dict, name) {
        Option::Some(nm) => nm,
        Option::None => ext_label(exts, ext) + lit("/") + hex_bytes(name, 16),
    }
}

/// The path of a raw artifact: the stem, with a dot-suffixed extension
/// string only when the table knows the extension; an unknown extension
/// hash already names the stem's directory and is not repeated.
pub open spec fn raw_path(
    dict: Seq<(u64, Seq<u8>)>,
    exts: Seq<(u64, Seq<u8>)>,
    ext: u64,
    name: u64,
) -> Seq<u8> {
    match dict_get(exts, ext) {
        Option::Some(es) => stem_path(dict, exts, ext, name) + lit(".") + es,
        Option::None => stem_path(dict, exts, ext, name),
    }
}

/// The path of a package-manifest artifact.
pub open spec fn package_path(
    dict: Seq<(u64, Seq<u8>)>,
    exts: Seq<(u64, Seq<u8>)>,
    ext: u64,
    name: u64,
) -> Seq<u8> {
    stem_path(dict, exts, ext, name) + lit(".package.json")
}

/// The path of one string-table artifact: the stem, the variant's language
/// label, and the JSON suffix.
pub open spec fn strings_path(
    dict: Seq<(u64, Seq<u8>)>,
    exts: Seq<(u64, Seq<u8>)>,
    ext: u64,
    name: u64,
    kind: u32,
) -> Seq<u8> {
    stem_path(dict, exts, ext, name) + lit(".") + crate::strings::kind_label(kind) + lit(".json")
}

/// Appends the extension label.
fn push_ext_label(out: &mut Vec<u8>, exts: &ExtensionTable, ext: u64)
    ensures
        final(out)@ == old(out)@ + ext_label(exts.entries(), ext),
{
    match exts.get(ext) {
        Some(s) => {
            crate::bytes::push_bytes(out, s.as_slice());
        },
        None => {
            crate::bytes::push_hex(out, ext, 16);
        },
    }
}

/// Appends the path stem.
fn push_stem(out: &mut Vec<u8>, dict: &Dictionary, exts: &ExtensionTable, ext: u64, name: u64)
    ensures
        final(out)@ == old(out)@ + stem_path(dict.entries(), exts.entries(), ext, name),
{
    match dict.get(name) {
        Some(nm) => {
            crate::bytes::push_bytes(out, nm.as_slice());
        },
        None => {
            push_ext_label(out, exts, ext);
            crate::json::push_lit(out, "/");
            crate::bytes::push_hex(out, name, 16);
        },
    }
}

/// Builds the path of a raw artifact.
fn build_raw_path(dict: &Dictionary, exts: &ExtensionTable, ext: u64, name: u64) -> (r: Vec<u8>)
    ensures
        r@ == raw_path(dict.entries(), exts.entries(), ext, name),
{
    let mut out: Vec<u8> = Vec::new();
    push_stem(&mut out, dict, exts, ext, name);
    match exts.get(ext) {
        Some(es) => {
            crate::json::push_lit(&mut out, ".");
            crate::bytes::push_bytes(&mut out, es.as_slice());
        },
        None => {},
    }
    out
}

/// Builds the path of a package-manifest artifact.
fn build_package_path(dict: &Dictionary, exts: &ExtensionTable, ext: u64, name: u64) -> (r: Vec<
    u8,
>)
    ensures
        r@ == package_path(dict.entries(), exts.entries(), ext, name),
{
    let mut out: Vec<u8> = Vec::new();
    push_stem(&mut out, dict, exts, ext, name);
    crate::json::push_lit(&mut out, ".package.json");
    out
}

/// Builds the path of one string-table artifact.
fn build_strings_path(
    dict: &Dictionary,
    exts: &ExtensionTable,
    ext: u64,
    name: u64,
    kind: u32,
) -> (r: Vec<u8>)
    ensures
        r@ == strings_path(dict.entries(), exts.entries(), ext, name, kind),
{
    let mut out: Vec<u8> = Vec::new();
    push_stem(&mut out, dict, exts, ext, name);
    crate::json::push_lit(&mut out, ".");
    crate::strings::push_kind_label(&mut out, kind);
    crate::json::push_lit(&mut out, ".json");
    out
}

/// How often the pair occurs among the first `i` index records.
pub open spec fn occ_before(ms: Seq<RecordModel>, i: int, e: u64, n: u64) -> int
    decreases i,
{
    if i <= 0 {
        0
    } else {
        occ_before(ms, i - 1, e, n) + (if ms[i - 1].ext == e && ms[i - 1].name == n {
            1int
        } else {
            0int
        })
    }
}

/// Occurrence counts grow with the prefix and never go negative.
pub proof fn lemma_occ_before_mono(ms: Seq<RecordModel>, a: int, b: int, e: u64, n: u64)
    requires
        a <= b,
    ensures
        occ_before(ms, a, e, n) <= occ_before(ms, b, e, n),
        occ_before(ms, b, e, n) >= 0 || b < 0,
    decreases b,
{
    if b > 0 {
        if a < b {
            lemma_occ_before_mono(ms, a, b - 1, e, n);
        } else {
            lemma_occ_before_mono(ms, 0, b - 1, e, n);
        }
    }
}

/// A saturating count increase: the count sticks at the ceiling instead of
/// wrapping.
pub open spec fn sat_add(a: u64, b: int) -> u64
    recommends
        b >= 0,
{
    if a + b > u64::MAX {
        u64::MAX
    } else {
        (a + b) as u64
    }
}

/// Whether record `i` enters the target set of a filtered pass: its
/// extension matches the filter, no occurrence of its pair was counted
/// before — not in an earlier bundle, not earlier in this one — and, with
/// a dictionary loaded, its name resolves.
pub open spec fn target_flag(
    ms: Seq<RecordModel>,
    counts0: DuplicateMap,
    dict: Seq<(u64, Seq<u8>)>,
    skip_unknown: bool,
    filter_ext: u64,
    i: int,
) -> bool {
    &&& ms[i].ext == filter_ext
    &&& counts0.spec_count(ms[i].ext, ms[i].name) == 0
    &&& occ_before(ms, i, ms[i].ext, ms[i].name) == 0
    &&& (!skip_unknown || dict_get(dict, ms[i].name) is Some)
}

/// First pass of a filtered run: counts every pair of the bundle in the
/// shared tracker — each occurrence adds exactly one to its pair's count,
/// saturating, and no other pair moves — and flags the files to emit: the
/// first occurrences that match the filter and pass the dictionary check.
pub fn select_targets(
    bundle: &Bundle,
    dupes: &mut DuplicateMap,
    dict: &Dictionary,
    skip_unknown: bool,
    filter_ext: u64,
) -> (flags: Vec<bool>)
    requires
        old(dupes).wf(),
    ensures
        final(dupes).wf(),
        flags@.len() == bundle.models().len(),
        forall|i: int|
            0 <= i < flags@.len() ==> flags@[i] == target_flag(
                bundle.models(),
                *old(dupes),
                dict.entries(),
                skip_unknown,
                filter_ext,
                i,
            ),
        forall|e: u64, n: u64|
            #![trigger old(dupes).spec_count(e, n)]
            final(dupes).spec_count(e, n) == sat_add(
                old(dupes).spec_count(e, n),
                occ_before(bundle.models(), bundle.models().len() as int, e, n),
            ),
        forall|e: u64, n: u64|
            (final(dupes).spec_count(e, n) == 0) <==> (old(dupes).spec_count(e, n) == 0
                && occ_before(bundle.models(), bundle.models().len() as int, e, n) == 0),
{
    let ghost ms = bundle.models();
    let ghost d0 = *dupes;
    let ghost mut dcur = *dupes;
    let mut flags: Vec<bool> = Vec::new();
    let n_files = bundle.num_files();
    let mut i: usize = 0;
    while i < n_files
        invariant
            i <= n_files,
            n_files == ms.len(),
            ms == bundle.models(),
            dupes.wf(),
            *dupes == dcur,
            flags@.len() == i,
            forall|t: int|
                0 <= t < i ==> flags@[t] == target_flag(
                    ms,
                    d0,
                    dict.entries(),
                    skip_unknown,
                    filter_ext,
                    t,
                ),
            forall|e: u64, n: u64|
                #![trigger d0.spec_count(e, n)]
                dcur.spec_count(e, n) == sat_add(
                    d0.spec_count(e, n),
                    occ_before(ms, i as int, e, n),
                ),
        decreases n_files - i,
    {
        let ext = bundle.file_ext(i);
        let name = bundle.file_name(i);
        let ghost d_before = dcur;
        let c = dupes.note(ext, name);
        proof {
            dcur = *dupes;
        }
        let known = if skip_unknown {
            dict.contains(name)
        } else {
            true
        };
        let sel = c == 1 && ext == filter_ext && known;
        proof {
            lemma_occ_before_mono(ms, 0, i as int, ext, name);
            assert(d_before.spec_count(ext, name) == sat_add(
                d0.spec_count(ext, name),
                occ_before(ms, i as int, ext, name),
            ));
            assert((c == 1) == (d_before.spec_count(ext, name) == 0));
            assert((d_before.spec_count(ext, name) == 0) == (d0.spec_count(ext, name) == 0
                && occ_before(ms, i as int, ext, name) == 0));
        }
        flags.push(sel);
        let ghost iprev = i as int;
        i += 1;
        proof {
            assert forall|e: u64, n: u64| #![trigger d0.spec_count(e, n)] dcur.spec_count(e, n)
                == sat_add(d0.spec_count(e, n), occ_before(ms, i as int, e, n)) by {
                assert(i as int == iprev + 1);
                assert(occ_before(ms, iprev + 1, e, n) == occ_before(ms, iprev, e, n) + (
                if ms[iprev].ext == e && ms[iprev].name == n {
                    1int
                } else {
                    0int
                }));
                if e == ext && n == name {
                    lemma_occ_before_mono(ms, 0, iprev, e, n);
                    assert(dcur.spec_count(e, n) == c);
                    assert(d_before.spec_count(e, n) == sat_add(
                        d0.spec_count(e, n),
                        occ_before(ms, iprev, e, n),
                    ));
                } else {
                    assert(dcur.spec_count(e, n) == d_before.spec_count(e, n));
                    assert(d_before.spec_count(e, n) == sat_add(
                        d0.spec_count(e, n),
                        occ_before(ms, iprev, e, n),
                    ));
                }
            }
        }
    }
    proof {
        assert forall|e: u64, n: u64| (dupes.spec_count(e, n) == 0) <==> (d0.spec_count(e, n) == 0
            && occ_before(ms, ms.len() as int, e, n) == 0) by {
            lemma_occ_before_mono(ms, 0, ms.len() as int, e, n);
            assert(dcur.spec_count(e, n) == sat_add(
                d0.spec_count(e, n),
                occ_before(ms, ms.len() as int, e, n),
            ));
        }
    }
    flags
}

/// At most one emission per pair across a run: a pair selected in one
/// bundle pass is never selected again in a later pass, whatever lies
/// between — the later pass sees its count and refuses it.
pub proof fn lemma_first_occurrence_only(
    ms1: Seq<RecordModel>,
    ms2: Seq<RecordModel>,
    d0: DuplicateMap,
    d1: DuplicateMap,
    i: int,
    j: int,
    dict: Seq<(u64, Seq<u8>)>,
    skip_unknown: bool,
    filter_ext: u64,
)
    requires
        0 <= i < ms1.len(),
        0 <= j < ms2.len(),
        ms2[j].ext == ms1[i].ext && ms2[j].name == ms1[i].name,
        // the first pass noted every pair of its bundle:
        forall|e: u64, n: u64|
            (d1.spec_count(e, n) == 0) <==> (d0.spec_count(e, n) == 0 && occ_before(
                ms1,
                ms1.len() as int,
                e,
                n,
            ) == 0),
    ensures
        // a pass that starts from the state the first one left never
        // selects the pair again:
        !target_flag(ms2, d1, dict, skip_unknown, filter_ext, j),
{
    let e = ms1[i].ext;
    let n = ms1[i].name;
    lemma_occ_before_mono(ms1, i + 1, ms1.len() as int, e, n);
    lemma_occ_before_mono(ms1, 0, i, e, n);
    assert(occ_before(ms1, i + 1, e, n) == occ_before(ms1, i, e, n) + 1);
    assert(occ_before(ms1, ms1.len() as int, e, n) >= 1);
    assert(d1.spec_count(e, n) != 0);
}

/// The second-pass filter: with a dictionary loaded, a file is only
/// emitted when its name resolves, except script bytecode always and
/// string tables when they are the filtered extension — their natural
/// output key is the name hash itself.
pub open spec fn pass2_ok(
    m: RecordModel,
    dict: Seq<(u64, Seq<u8>)>,
    skip_unknown: bool,
    filter: Option<u64>,
) -> bool {
    ||| !skip_unknown
    ||| m.ext == lua_hash()
    ||| (filter == Some(m.ext) && m.ext == strings_hash())
    ||| dict_get(dict, m.name) is Some
}

/// The extension hash of script bytecode.
pub open spec fn lua_hash() -> u64 {
    murmur64a(lit("lua"), 0)
}

/// The extension hash of package manifests.
pub open spec fn package_hash() -> u64 {
    murmur64a(lit("package"), 0)
}

/// The extension hash of string tables.
pub open spec fn strings_hash() -> u64 {
    murmur64a(lit("strings"), 0)
}

/// The body bytes of file `i` in the bundle's logical stream.
pub open spec fn bundle_body(b: &Bundle, i: int) -> Seq<u8> {
    b.stream_bytes().subrange(b.offsets_seq()[i] as int, b.offsets_seq()[i + 1] as int)
}

/// Whether a file is emitted: in a filtered run it must be a flagged
/// target; always it must pass the second-pass dictionary filter.
pub open spec fn emit_flag(
    ms: Seq<RecordModel>,
    counts0: DuplicateMap,
    dict: Seq<(u64, Seq<u8>)>,
    skip_unknown: bool,
    filter: Option<u64>,
    i: int,
) -> bool {
    &&& (match filter {
        Option::Some(f) => target_flag(ms, counts0, dict, skip_unknown, f, i),
        Option::None => true,
    })
    &&& pass2_ok(ms[i], dict, skip_unknown, filter)
}

/// The artifacts one emitted file decodes to: raw mode and unrecognized
/// extensions copy the body under the raw path; script bytecode, package
/// manifests and string tables go through their parsers, a refused body
/// yielding nothing.
pub open spec fn file_artifacts(
    m: RecordModel,
    body: Seq<u8>,
    dict: Seq<(u64, Seq<u8>)>,
    shorts: Seq<(u32, u64)>,
    exts: Seq<(u64, Seq<u8>)>,
    skip_unknown: bool,
    as_blob: bool,
    xsrc: bool,
) -> Seq<(Seq<u8>, Seq<u8>)> {
    if as_blob || (m.ext != lua_hash() && m.ext != package_hash() && m.ext != strings_hash()) {
        seq![(raw_path(dict, exts, m.ext, m.name), body)]
    } else if m.ext == lua_hash() {
        if m.variants.len() != 1 {
            Seq::empty()
        } else {
            match crate::lua::parse_script(body, xsrc) {
                Option::Some(p) => seq![(p.0, p.1)],
                Option::None => Seq::empty(),
            }
        }
    } else if m.ext == package_hash() {
        if m.variants.len() != 1 {
            Seq::empty()
        } else {
            match crate::package::parse_package(body) {
                Option::Some(rs) => seq![
                    (
                        package_path(dict, exts, m.ext, m.name),
                        crate::package::package_json(rs, dict, exts),
                    ),
                ],
                Option::None => Seq::empty(),
            }
        }
    } else {
        if crate::strings::strings_all_valid(m.variants, body) {
            Seq::new(
                m.variants.len(),
                |k: int|
                    (
                        strings_path(dict, exts, m.ext, m.name, m.variants[k].kind),
                        crate::strings::strings_object(
                            crate::strings::variant_slice(m.variants, body, k),
                            dict,
                            shorts,
                            skip_unknown,
                        ),
                    ),
            )
        } else {
            Seq::empty()
        }
    }
}

/// Whether an emitted file decodes: its parser accepted it (the raw writer
/// always does; a script or package file must carry exactly one variant).
/// A recognized-format body that does not decode is fatal for its bundle.
pub open spec fn file_ok(m: RecordModel, body: Seq<u8>, as_blob: bool, xsrc: bool) -> bool {
    if as_blob || (m.ext != lua_hash() && m.ext != package_hash() && m.ext != strings_hash()) {
        true
    } else if m.ext == lua_hash() {
        m.variants.len() == 1 && crate::lua::parse_script(body, xsrc) is Some
    } else if m.ext == package_hash() {
        m.variants.len() == 1 && crate::package::parse_package(body) is Some
    } else {
        crate::strings::strings_all_valid(m.variants, body)
    }
}

/// The artifacts of the first `i` files, emitted files only, in index
/// order.
pub open spec fn extract_fold(
    b: &Bundle,
    flags: Seq<bool>,
    dict: Seq<(u64, Seq<u8>)>,
    shorts: Seq<(u32, u64)>,
    exts: Seq<(u64, Seq<u8>)>,
    skip_unknown: bool,
    as_blob: bool,
    xsrc: bool,
    i: int,
) -> Seq<(Seq<u8>, Seq<u8>)>
    decreases i,
{
    if i <= 0 {
        Seq::empty()
    } else {
        extract_fold(b, flags, dict, shorts, exts, skip_unknown, as_blob, xsrc, i - 1) + (if flags[i
            - 1] {
            file_artifacts(
                b.models()[i - 1],
                bundle_body(b, i - 1),
                dict,
                shorts,
                exts,
                skip_unknown,
                as_blob,
                xsrc,
            )
        } else {
            Seq::empty()
        })
    }
}

/// How many of the first `i` files were extracted.
pub open spec fn count_fold(
    b: &Bundle,
    flags: Seq<bool>,
    as_blob: bool,
    xsrc: bool,
    i: int,
) -> int
    decreases i,
{
    if i <= 0 {
        0
    } else {
        count_fold(b, flags, as_blob, xsrc, i - 1) + (if flags[i - 1] && file_ok(
            b.models()[i - 1],
            bundle_body(b, i - 1),
            as_blob,
            xsrc,
        ) {
            1int
        } else {
            0int
        })
    }
}

/// How many of the first `i` flags are set.
pub open spec fn count_true(flags: Seq<bool>, i: int) -> int
    decreases i,
{
    if i <= 0 {
        0
    } else {
        count_true(flags, i - 1) + (if flags[i - 1] {
            1int
        } else {
            0int
        })
    }
}

/// The combined emit decisions of one bundle pass.
pub open spec fn emit_seq(
    ms: Seq<RecordModel>,
    counts0: DuplicateMap,
    dict: Seq<(u64, Seq<u8>)>,
    skip_unknown: bool,
    filter: Option<u64>,
) -> Seq<bool> {
    Seq::new(ms.len(), |i: int| emit_flag(ms, counts0, dict, skip_unknown, filter, i))
}

/// A bundle-fatal refusal: the file whose recognized-format body did not
/// decode — its index position and its hash pair, for the run's error
/// report.
#[derive(Debug)]
pub struct ExtractError {
    pub index: usize,
    pub ext: u64,
    pub name: u64,
}

/// The target flags as the second pass sees them.
pub open spec fn targets_view(targets: Option<&Vec<bool>>) -> Option<Seq<bool>> {
    match targets {
        Option::Some(f) => Some(f@),
        Option::None => None,
    }
}

/// The base emit decision of file `i`: its target flag in a filtered run,
/// or true when every file is in play.
pub open spec fn base_flag(targets: Option<Seq<bool>>, i: int) -> bool {
    match targets {
        Option::Some(f) => f[i],
        Option::None => true,
    }
}

/// The combined emit decisions of a second pass over given targets.
pub open spec fn emit_of(
    ms: Seq<RecordModel>,
    targets: Option<Seq<bool>>,
    dict: Seq<(u64, Seq<u8>)>,
    skip_unknown: bool,
    filter: Option<u64>,
) -> Seq<bool> {
    Seq::new(
        ms.len(),
        |i: int| base_flag(targets, i) && pass2_ok(ms[i], dict, skip_unknown, filter),
    )
}

/// The artifact fold of a whole bundle under the run's options.
pub open spec fn opt_fold(bundle: &Bundle, flags: Seq<bool>, options: &ExtractOptions) -> Seq<
    (Seq<u8>, Seq<u8>),
> {
    extract_fold(
        bundle,
        flags,
        options.dictionary.entries(),
        options.dictionary.shorts(),
        options.exts.entries(),
        options.skip_unknown,
        options.as_blob,
        options.extract_lua_source,
        bundle.models().len() as int,
    )
}

/// The extracted-file count of a whole bundle under the run's options.
pub open spec fn opt_count(bundle: &Bundle, flags: Seq<bool>, options: &ExtractOptions) -> int {
    count_fold(
        bundle,
        flags,
        options.as_blob,
        options.extract_lua_source,
        bundle.models().len() as int,
    )
}

/// Every emitted file among the first `upto` decodes.
pub open spec fn emitted_ok(
    bundle: &Bundle,
    flags: Seq<bool>,
    options: &ExtractOptions,
    upto: int,
) -> bool {
    forall|j: int|
        0 <= j < upto ==> ((#[trigger] flags[j]) ==> file_ok(
            bundle.models()[j],
            bundle_body(bundle, j),
            options.as_blob,
            options.extract_lua_source,
        ))
}

/// A refusal names the first emitted file that does not decode.
pub open spec fn marks_refusal(
    bundle: &Bundle,
    flags: Seq<bool>,
    options: &ExtractOptions,
    e: ExtractError,
) -> bool {
    &&& e.index < bundle.models().len()
    &&& flags[e.index as int]
    &&& !file_ok(
        bundle.models()[e.index as int],
        bundle_body(bundle, e.index as int),
        options.as_blob,
        options.extract_lua_source,
    )
    &&& e.ext == bundle.models()[e.index as int].ext
    &&& e.name == bundle.models()[e.index as int].name
    &&& emitted_ok(bundle, flags, options, e.index as int)
}

/// Second pass: decodes every emitted file to its artifacts in index
/// order.  A recognized-format body that does not decode is fatal for the
/// bundle: the pass stops and names the file; the raw writer never
/// refuses.
#[verifier::rlimit(100)]
pub fn emit_files(
    bundle: &Bundle,
    targets: Option<&Vec<bool>>,
    options: &ExtractOptions,
    filter: Option<u64>,
) -> (r: Result<(Vec<Artifact>, u32), ExtractError>)
    requires
        bundle.wf(),
        bundle.models().len() <= u32::MAX,
        match targets {
            Option::Some(f) => f@.len() == bundle.models().len(),
            Option::None => true,
        },
    ensures
        match r {
            Result::Ok(p) => {
                &&& art_models(p.0@) == opt_fold(
                    bundle,
                    emit_of(
                        bundle.models(),
                        targets_view(targets),
                        options.dictionary.entries(),
                        options.skip_unknown,
                        filter,
                    ),
                    options,
                )
                &&& p.1 == opt_count(
                    bundle,
                    emit_of(
                        bundle.models(),
                        targets_view(targets),
                        options.dictionary.entries(),
                        options.skip_unknown,
                        filter,
                    ),
                    options,
                )
                &&& emitted_ok(
                    bundle,
                    emit_of(
                        bundle.models(),
                        targets_view(targets),
                        options.dictionary.entries(),
                        options.skip_unknown,
                        filter,
                    ),
                    options,
                    bundle.models().len() as int,
                )
            },
            Result::Err(e) => marks_refusal(
                bundle,
                emit_of(
                    bundle.models(),
                    targets_view(targets),
                    options.dictionary.entries(),
                    options.skip_unknown,
                    filter,
                ),
                options,
                e,
            ),
        },
{
    let ghost ms = bundle.models();
    let nfiles = bundle.num_files();
    let ghost eflags = emit_of(
        ms,
        targets_view(targets),
        options.dictionary.entries(),
        options.skip_unknown,
        filter,
    );
    let lua_h = crate::hash::murmur_hash64a("lua".as_bytes(), 0);
    let package_h = crate::hash::murmur_hash64a("package".as_bytes(), 0);
    let strings_h = crate::hash::murmur_hash64a("strings".as_bytes(), 0);
    let mut arts: Vec<Artifact> = Vec::new();
    let mut cnt: u32 = 0;
    let mut i: usize = 0;
    while i < nfiles
        invariant
            i <= nfiles,
            nfiles == ms.len() <= u32::MAX,
            ms == bundle.models(),
            bundle.wf(),
            match targets {
                Option::Some(f) => f@.len() == nfiles,
                Option::None => true,
            },
            eflags == emit_of(
                ms,
                targets_view(targets),
                options.dictionary.entries(),
                options.skip_unknown,
                filter,
            ),
            lua_h == lua_hash(),
            package_h == package_hash(),
            strings_h == strings_hash(),
            cnt == count_fold(bundle, eflags, options.as_blob, options.extract_lua_source, i as int),
            cnt <= i,
            emitted_ok(bundle, eflags, options, i as int),
            art_models(arts@) == extract_fold(
                bundle,
                eflags,
                options.dictionary.entries(),
                options.dictionary.shorts(),
                options.exts.entries(),
                options.skip_unknown,
                options.as_blob,
                options.extract_lua_source,
                i as int,
            ),
        decreases nfiles - i,
    {
        let ext = bundle.file_ext(i);
        let name = bundle.file_name(i);
        let base_ok = match &targets {
            Some(flags) => flags[i],
            None => true,
        };
        let sel = base_ok && (!options.skip_unknown || ext == lua_h || (match filter {
            Some(f) => f == ext && ext == strings_h,
            None => false,
        }) || options.dictionary.contains(name));
        proof {
            assert(eflags[i as int] == (base_flag(targets_view(targets), i as int) && pass2_ok(
                ms[i as int],
                options.dictionary.entries(),
                options.skip_unknown,
                filter,
            )));
            assert(sel == eflags[i as int]);
        }
        let ghost arts0 = art_models(arts@);
        if sel {
            let body = bundle.body(i);
            proof {
                assert(body@ == bundle_body(bundle, i as int));
            }
            if options.as_blob || (ext != lua_h && ext != package_h && ext != strings_h) {
                let path = build_raw_path(&options.dictionary, &options.exts, ext, name);
                arts.push(Artifact { path, data: body });
                cnt += 1;
            } else if ext == lua_h {
                if bundle.variants(i).len() != 1 {
                    return Err(ExtractError { index: i, ext, name });
                }
                match crate::lua::extract_script(body.as_slice(), options.extract_lua_source) {
                    Some((path, data)) => {
                        arts.push(Artifact { path, data });
                        cnt += 1;
                    },
                    None => {
                        return Err(ExtractError { index: i, ext, name });
                    },
                }
            } else if ext == package_h {
                if bundle.variants(i).len() != 1 {
                    return Err(ExtractError { index: i, ext, name });
                }
                match crate::package::extract_package(
                    body.as_slice(),
                    &options.dictionary,
                    &options.exts,
                ) {
                    Some(json) => {
                        let path = build_package_path(&options.dictionary, &options.exts, ext, name);
                        arts.push(Artifact { path, data: json });
                        cnt += 1;
                    },
                    None => {
                        return Err(ExtractError { index: i, ext, name });
                    },
                }
            } else {
                match crate::strings::extract_strings(
                    bundle.variants(i),
                    body.as_slice(),
                    &options.dictionary,
                    options.skip_unknown,
                ) {
                    Some(outs) => {
                        let ghost m = ms[i as int];
                        let ghost fa = file_artifacts(
                            m,
                            bundle_body(bundle, i as int),
                            options.dictionary.entries(),
                            options.dictionary.shorts(),
                            options.exts.entries(),
                            options.skip_unknown,
                            options.as_blob,
                            options.extract_lua_source,
                        );
                        let ghost outs0 = outs@;
                        proof {
                            assert(fa.len() == outs0.len());
                            assert forall|t: int| 0 <= t < outs0.len() implies fa[t] == (
                            strings_path(
                                options.dictionary.entries(),
                                options.exts.entries(),
                                m.ext,
                                m.name,
                                (#[trigger] outs0[t]).0,
                            ),
                            outs0[t].1@,
                            ) by {
                                assert(outs0[t].0 == m.variants[t].kind);
                            }
                        }
                        let mut outs = outs;
                        let mut k: usize = 0;
                        while k < outs.len()
                            invariant
                                k <= outs@.len(),
                                outs@ == outs0,
                                ext == m.ext && name == m.name,
                                fa.len() == outs0.len(),
                                forall|t: int|
                                    0 <= t < outs0.len() ==> fa[t] == (
                                    strings_path(
                                        options.dictionary.entries(),
                                        options.exts.entries(),
                                        m.ext,
                                        m.name,
                                        (#[trigger] outs0[t]).0,
                                    ),
                                    outs0[t].1@,
                                ),
                                art_models(arts@) == arts0 + fa.take(k as int),
                            decreases outs@.len() - k,
                        {
                            let kind = outs[k].0;
                            let json_len = outs[k].1.len();
                            let mut json: Vec<u8> = Vec::new();
                            let mut ji: usize = 0;
                            while ji < json_len
                                invariant
                                    ji <= json_len,
                                    k < outs@.len(),
                                    outs@ == outs0,
                                    json_len == outs0[k as int].1@.len(),
                                    json@ == outs0[k as int].1@.take(ji as int),
                                decreases json_len - ji,
                            {
                                json.push(outs[k].1[ji]);
                                proof {
                                    assert(json@ =~= outs0[k as int].1@.take(ji as int + 1));
                                }
                                ji += 1;
                            }
                            proof {
                                assert(json@ =~= outs0[k as int].1@);
                            }
                            let path = build_strings_path(
                                &options.dictionary,
                                &options.exts,
                                ext,
                                name,
                                kind,
                            );
                            let ghost amodel = (path@, json@);
                            let ghost pre = arts@;
                            arts.push(Artifact { path, data: json });
                            proof {
                                assert(art_models(arts@) =~= art_models(pre) + seq![amodel]);
                                assert(fa[k as int] == amodel);
                                assert(fa.take(k as int + 1) =~= fa.take(k as int) + seq![
                                    fa[k as int],
                                ]);
                                assert(art_models(arts@) =~= arts0 + fa.take(k as int + 1));
                            }
                            k += 1;
                        }
                        proof {
                            assert(fa.take(outs0.len() as int) =~= fa);
                        }
                        cnt += 1;
                    },
                    None => {
                        return Err(ExtractError { index: i, ext, name });
                    },
                }
            }
        }
        proof {
            assert(art_models(arts@) =~= extract_fold(
                bundle,
                eflags,
                options.dictionary.entries(),
                options.dictionary.shorts(),
                options.exts.entries(),
                options.skip_unknown,
                options.as_blob,
                options.extract_lua_source,
                i as int + 1,
            ));
        }
        i += 1;
    }
    Ok((arts, cnt))
}

/// Processes one decoded bundle: counts pairs and picks targets under the
/// filter — each index record adds exactly one, saturating, to its pair's
/// count, no other pair moves — then decodes every emitted file to its
/// artifacts in index order.  A recognized-format body that does not
/// decode is fatal for the bundle, named in the error; in hash-dump mode
/// no file is decoded and only targets are counted.
#[verifier::rlimit(100)]
pub fn extract_bundle(
    bundle: &Bundle,
    dupes: &mut DuplicateMap,
    options: &ExtractOptions,
    filter: Option<u64>,
) -> (r: Result<(Vec<Artifact>, u32), ExtractError>)
    requires
        bundle.wf(),
        bundle.models().len() <= u32::MAX,
        old(dupes).wf(),
    ensures
        final(dupes).wf(),
        filter is None ==> *final(dupes) == *old(dupes),
        filter is Some ==> forall|e: u64, n: u64|
            #![trigger old(dupes).spec_count(e, n)]
            final(dupes).spec_count(e, n) == sat_add(
                old(dupes).spec_count(e, n),
                occ_before(bundle.models(), bundle.models().len() as int, e, n),
            ),
        filter is Some ==> forall|e: u64, n: u64|
            (final(dupes).spec_count(e, n) == 0) <==> (old(dupes).spec_count(e, n) == 0
                && occ_before(bundle.models(), bundle.models().len() as int, e, n) == 0),
        options.skip_extract ==> match r {
            Result::Ok(p) => p.0@.len() == 0 && p.1 == (match filter {
                Option::Some(f) => count_true(
                    emit_seq(
                        bundle.models(),
                        *old(dupes),
                        options.dictionary.entries(),
                        options.skip_unknown,
                        filter,
                    ),
                    bundle.models().len() as int,
                ),
                Option::None => 0int,
            }),
            Result::Err(_) => false,
        },
        !options.skip_extract ==> match r {
            Result::Ok(p) => {
                &&& art_models(p.0@) == opt_fold(
                    bundle,
                    emit_seq(
                        bundle.models(),
                        *old(dupes),
                        options.dictionary.entries(),
                        options.skip_unknown,
                        filter,
                    ),
                    options,
                )
                &&& p.1 == opt_count(
                    bundle,
                    emit_seq(
                        bundle.models(),
                        *old(dupes),
                        options.dictionary.entries(),
                        options.skip_unknown,
                        filter,
                    ),
                    options,
                )
                &&& emitted_ok(
                    bundle,
                    emit_seq(
                        bundle.models(),
                        *old(dupes),
                        options.dictionary.entries(),
                        options.skip_unknown,
                        filter,
                    ),
                    options,
                    bundle.models().len() as int,
                )
            },
            Result::Err(e) => marks_refusal(
                bundle,
                emit_seq(
                    bundle.models(),
                    *old(dupes),
                    options.dictionary.entries(),
                    options.skip_unknown,
                    filter,
                ),
                options,
                e,
            ),
        },
{
    let ghost ms = bundle.models();
    let ghost d0 = *dupes;
    let nfiles = bundle.num_files();
    match filter {
        Some(f) => {
            let flags = select_targets(bundle, dupes, &options.dictionary, options.skip_unknown, f);
            proof {
                assert(emit_of(
                    ms,
                    Some(flags@),
                    options.dictionary.entries(),
                    options.skip_unknown,
                    filter,
                ) =~= emit_seq(ms, d0, options.dictionary.entries(), options.skip_unknown, filter));
            }
            if options.skip_extract {
                let ghost eflags = emit_seq(
                    ms,
                    d0,
                    options.dictionary.entries(),
                    options.skip_unknown,
                    filter,
                );
                let lua_h = crate::hash::murmur_hash64a("lua".as_bytes(), 0);
                let strings_h = crate::hash::murmur_hash64a("strings".as_bytes(), 0);
                let mut cnt: u32 = 0;
                let mut i: usize = 0;
                while i < nfiles
                    invariant
                        i <= nfiles,
                        nfiles == ms.len() <= u32::MAX,
                        ms == bundle.models(),
                        bundle.wf(),
                        flags@.len() == nfiles,
                        forall|t: int|
                            0 <= t < nfiles ==> flags@[t] == target_flag(
                                ms,
                                d0,
                                options.dictionary.entries(),
                                options.skip_unknown,
                                f,
                                t,
                            ),
                        cnt == count_true(eflags, i as int),
                        cnt <= i,
                        eflags == emit_seq(
                            ms,
                            d0,
                            options.dictionary.entries(),
                            options.skip_unknown,
                            Some(f),
                        ),
                        lua_h == lua_hash(),
                        strings_h == strings_hash(),
                    decreases nfiles - i,
                {
                    let ext = bundle.file_ext(i);
                    let name = bundle.file_name(i);
                    let sel = flags[i] && (!options.skip_unknown || ext == lua_h || (f == ext && ext
                        == strings_h) || options.dictionary.contains(name));
                    proof {
                        assert(eflags[i as int] == emit_flag(
                            ms,
                            d0,
                            options.dictionary.entries(),
                            options.skip_unknown,
                            Some(f),
                            i as int,
                        ));
                        assert(sel == eflags[i as int]);
                    }
                    if sel {
                        cnt += 1;
                    }
                    i += 1;
                }
                Ok((Vec::new(), cnt))
            } else {
                emit_files(bundle, Some(&flags), options, filter)
            }
        },
        None => {
            if options.skip_extract {
                Ok((Vec::new(), 0))
            } else {
                proof {
                    assert(emit_of(
                        ms,
                        None,
                        options.dictionary.entries(),
                        options.skip_unknown,
                        filter,
                    ) =~= emit_seq(
                        ms,
                        d0,
                        options.dictionary.entries(),
                        options.skip_unknown,
                        filter,
                    ));
                }
                emit_files(bundle, None, options, filter)
            }
        },
    }
}

} // verus!
