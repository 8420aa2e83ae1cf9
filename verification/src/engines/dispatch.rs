//! Engine outcomes, fragment and engine names, and routing of a definability
//! question to the engine of its fragment.

use vstd::prelude::*;

use crate::engines::horn::{check_horn, horn_depth, horn_found, pp_pure};
use crate::engines::partition::{refused_error, tuples_refused};
use crate::engines::positive::{check_positive_split, has_ops, positive_definable};
use crate::engines::splits::{fo_definable, fo_type_split, type_definable, type_split, KeyKind};
use crate::engines::types::{choose_fo_split_k, fo_split_k, has_ternary_op, type_explosion_risk};
use crate::first_order::models::Model;
use crate::first_order::relops::Relation;
use crate::strs::{chars_of, int_text, push_char, push_str, push_usize};
use crate::text::{trim, trim_str};

verus! {

/// Lower-case form of a string, as `str::to_lowercase` gives it.
pub uninterp spec fn lowercase(s: Seq<char>) -> Seq<char>;

/// A character lowered as ASCII: `A` to `Z` become `a` to `z`, the rest stay.
pub open spec fn ascii_lower(c: char) -> char {
    if 65 <= (c as u32) <= 90 {
        ((c as u32) + 32) as char
    } else {
        c
    }
}

/// `str::to_lowercase`: the result is `lowercase` of the argument, and on an
/// all-ASCII argument it is the argument lowered character by character as ASCII
/// (Unicode lowers `A` to `Z` to `a` to `z` and leaves the other ASCII characters
/// as they are). Lowering beyond ASCII is Unicode's and is not written out here.
#[verifier::external_body]
fn to_lower(s: &str) -> (r: String)
    ensures
        r@ == lowercase(s@),
        (forall|i: int| 0 <= i < s@.len() ==> (#[trigger] s@[i] as u32) < 128) ==> r@ == s@.map_values(
            |c: char| ascii_lower(c),
        ),
{
    s.to_lowercase()
}

/// The characters are equal.
pub fn str_eq(a: &str, b: &str) -> (r: bool)
    ensures
        r == (a@ == b@),
{
    let ca = chars_of(a);
    let cb = chars_of(b);
    if ca.len() != cb.len() {
        return false;
    }
    let mut i: usize = 0;
    while i < ca.len()
        invariant
            i <= ca.len(),
            ca.len() == cb.len(),
            ca@ == a@,
            cb@ == b@,
            forall|k: int| 0 <= k < i ==> ca@[k] == cb@[k],
        decreases ca.len() - i,
    {
        if ca[i] != cb[i] {
            return false;
        }
        i += 1;
    }
    proof {
        assert(a@ =~= b@);
    }
    true
}

/// `s` with every `-` replaced by `_`.
pub open spec fn dash_to_underscore(s: Seq<char>) -> Seq<char> {
    s.map_values(|c: char| if c == '-' { '_' } else { c })
}

/// Replaces every `-` by `_`.
pub fn replace_dashes(s: &str) -> (r: String)
    ensures
        r@ == dash_to_underscore(s@),
{
    let cs = chars_of(s);
    let mut r = String::new();
    let mut i: usize = 0;
    while i < cs.len()
        invariant
            i <= cs.len(),
            cs@ == s@,
            r@ == dash_to_underscore(s@).take(i as int),
        decreases cs.len() - i,
    {
        let c = if cs[i] == '-' {
            '_'
        } else {
            cs[i]
        };
        push_char(&mut r, c);
        i += 1;
        proof {
            assert(r@ =~= dash_to_underscore(s@).take(i as int));
        }
    }
    proof {
        assert(dash_to_underscore(s@).take(cs.len() as int) =~= dash_to_underscore(s@));
    }
    r
}

/// A logical fragment in which definability is asked.
#[derive(Debug, Clone, Copy, PartialEq, Eq, Structural)]
pub enum FragmentKind {
    Qf,
    QfPos,
    Ep,
    Ex,
    Pp,
    AtomicConj,
    Fo,
    Horn,
    Gf,
}

/// An engine that decides definability.
#[derive(Debug, Clone, Copy, PartialEq, Eq, Structural)]
pub enum EngineKind {
    Auto,
    Split,
    Merge,
    Ktypes,
    Hit,
    HomType,
    Cert,
}

/// What an engine answered.
#[derive(Debug, Clone)]
pub struct EngineOutcome {
    pub definable: bool,
    pub fragment: String,
    pub engine: String,
    /// Optional sketch of a witness (orbit representatives as JSON).
    pub witness_sketch: Option<String>,
}

impl EngineOutcome {
    /// An outcome without a witness sketch.
    pub fn basic(definable: bool, fragment: &str, engine: &str) -> (r: Self)
        ensures
            r.definable == definable,
            r.fragment@ == fragment@,
            r.engine@ == engine@,
            r.witness_sketch is None,
    {
        EngineOutcome { definable, fragment: fragment.to_string(), engine: engine.to_string(), witness_sketch: None }
    }

    /// The outcome with a witness sketch.
    pub fn with_sketch(self, sketch: &str) -> (r: Self)
        ensures
            r.definable == self.definable,
            r.fragment == self.fragment,
            r.engine == self.engine,
            r.witness_sketch matches Some(w) && w@ == sketch@,
    {
        let mut out = self;
        out.witness_sketch = Some(sketch.to_string());
        out
    }
}

/// The fragment a normalised name stands for.
pub open spec fn fragment_of_key(k: Seq<char>) -> Option<FragmentKind> {
    if k == "qf"@ || k == "open"@ || k == "quantifier_free"@ {
        Some(FragmentKind::Qf)
    } else if k == "qf_pos"@ || k == "qfpos"@ || k == "positive"@ {
        Some(FragmentKind::QfPos)
    } else if k == "ep"@ || k == "existential_positive"@ {
        Some(FragmentKind::Ep)
    } else if k == "ex"@ || k == "existential"@ {
        Some(FragmentKind::Ex)
    } else if k == "pp"@ {
        Some(FragmentKind::Pp)
    } else if k == "atomic_conj"@ || k == "atomic"@ {
        Some(FragmentKind::AtomicConj)
    } else if k == "fo"@ {
        Some(FragmentKind::Fo)
    } else if k == "horn"@ {
        Some(FragmentKind::Horn)
    } else if k == "gf"@ || k == "guarded"@ {
        Some(FragmentKind::Gf)
    } else {
        None
    }
}

/// The engine a normalised name stands for.
pub open spec fn engine_of_key(k: Seq<char>) -> Option<EngineKind> {
    if k == "auto"@ {
        Some(EngineKind::Auto)
    } else if k == "split"@ {
        Some(EngineKind::Split)
    } else if k == "merge"@ {
        Some(EngineKind::Merge)
    } else if k == "ktypes"@ {
        Some(EngineKind::Ktypes)
    } else if k == "hit"@ {
        Some(EngineKind::Hit)
    } else if k == "hom_type"@ || k == "homtype"@ {
        Some(EngineKind::HomType)
    } else if k == "cert"@ || k == "certificate"@ || k == "ep_cert"@ {
        Some(EngineKind::Cert)
    } else {
        None
    }
}

/// Name of a fragment.
pub open spec fn fragment_name(f: FragmentKind) -> Seq<char> {
    match f {
        FragmentKind::Qf => "qf"@,
        FragmentKind::QfPos => "qf_pos"@,
        FragmentKind::Ep => "ep"@,
        FragmentKind::Ex => "ex"@,
        FragmentKind::Pp => "pp"@,
        FragmentKind::AtomicConj => "atomic_conj"@,
        FragmentKind::Fo => "fo"@,
        FragmentKind::Horn => "horn"@,
        FragmentKind::Gf => "gf"@,
    }
}

/// The fragment named by a normalised key, or the error naming the key.
pub fn fragment_from_key(key: &str) -> (r: Result<FragmentKind, String>)
    ensures
        match fragment_of_key(key@) {
            Some(f) => r == Ok::<FragmentKind, String>(f),
            None => r matches Err(e) && e@ == "unknown fragment "@ + key@,
        },
{
    if str_eq(key, "qf") || str_eq(key, "open") || str_eq(key, "quantifier_free") {
        Ok(FragmentKind::Qf)
    } else if str_eq(key, "qf_pos") || str_eq(key, "qfpos") || str_eq(key, "positive") {
        Ok(FragmentKind::QfPos)
    } else if str_eq(key, "ep") || str_eq(key, "existential_positive") {
        Ok(FragmentKind::Ep)
    } else if str_eq(key, "ex") || str_eq(key, "existential") {
        Ok(FragmentKind::Ex)
    } else if str_eq(key, "pp") {
        Ok(FragmentKind::Pp)
    } else if str_eq(key, "atomic_conj") || str_eq(key, "atomic") {
        Ok(FragmentKind::AtomicConj)
    } else if str_eq(key, "fo") {
        Ok(FragmentKind::Fo)
    } else if str_eq(key, "horn") {
        Ok(FragmentKind::Horn)
    } else if str_eq(key, "gf") || str_eq(key, "guarded") {
        Ok(FragmentKind::Gf)
    } else {
        let mut msg = String::new();
        push_str(&mut msg, "unknown fragment ");
        push_str(&mut msg, key);
        Err(msg)
    }
}

/// The engine named by a normalised key, or the error naming the key.
pub fn engine_from_key(key: &str) -> (r: Result<EngineKind, String>)
    ensures
        match engine_of_key(key@) {
            Some(e) => r == Ok::<EngineKind, String>(e),
            None => r matches Err(e) && e@ == "unknown engine "@ + key@,
        },
{
    if str_eq(key, "auto") {
        Ok(EngineKind::Auto)
    } else if str_eq(key, "split") {
        Ok(EngineKind::Split)
    } else if str_eq(key, "merge") {
        Ok(EngineKind::Merge)
    } else if str_eq(key, "ktypes") {
        Ok(EngineKind::Ktypes)
    } else if str_eq(key, "hit") {
        Ok(EngineKind::Hit)
    } else if str_eq(key, "hom_type") || str_eq(key, "homtype") {
        Ok(EngineKind::HomType)
    } else if str_eq(key, "cert") || str_eq(key, "certificate") || str_eq(key, "ep_cert") {
        Ok(EngineKind::Cert)
    } else {
        let mut msg = String::new();
        push_str(&mut msg, "unknown engine ");
        push_str(&mut msg, key);
        Err(msg)
    }
}

impl FragmentKind {
    /// Reads a fragment name: trimmed, lower-cased, `-` read as `_`.
    pub fn parse(s: &str) -> (r: Result<Self, String>)
        ensures
            ({
                let key = dash_to_underscore(lowercase(trim(s@)));
                match fragment_of_key(key) {
                    Some(f) => r == Ok::<FragmentKind, String>(f),
                    None => r matches Err(e) && e@ == "unknown fragment "@ + key,
                }
            }),
    {
        let t = trim_str(s);
        let low = to_lower(t.as_str());
        let key = replace_dashes(low.as_str());
        fragment_from_key(key.as_str())
    }

    /// The name of the fragment.
    pub fn as_str(self) -> (r: &'static str)
        ensures
            r@ == fragment_name(self),
    {
        match self {
            FragmentKind::Qf => "qf",
            FragmentKind::QfPos => "qf_pos",
            FragmentKind::Ep => "ep",
            FragmentKind::Ex => "ex",
            FragmentKind::Pp => "pp",
            FragmentKind::AtomicConj => "atomic_conj",
            FragmentKind::Fo => "fo",
            FragmentKind::Horn => "horn",
            FragmentKind::Gf => "gf",
        }
    }
}

impl EngineKind {
    /// Reads an engine name: trimmed and lower-cased.
    pub fn parse(s: &str) -> (r: Result<Self, String>)
        ensures
            ({
                let key = lowercase(trim(s@));
                match engine_of_key(key) {
                    Some(e) => r == Ok::<EngineKind, String>(e),
                    None => r matches Err(e) && e@ == "unknown engine "@ + key,
                }
            }),
    {
        let t = trim_str(s);
        let key = to_lower(t.as_str());
        engine_from_key(key.as_str())
    }
}

/// An engine that stands outside this library and is run by its caller on
/// the same model and target.
#[derive(Debug, Clone, Copy, PartialEq, Eq, Structural)]
pub enum ExternalEngine {
    /// Split by End(U)-orbit types.
    MorphSplit,
    /// Existential-positive certificate search.
    EpCert,
    /// Split by embedding orbits.
    EmbeddingSplit,
    /// Guarded merge of orbits.
    GuardedMerge,
    /// Quantifier-free merge by isomorphism types of generated substructures.
    MegahitMerge,
    /// Quantifier-free definability by the splitting search.
    OpenDefinability,
}

/// What the dispatcher gives back: an outcome, or an engine to run with the
/// engine name (when one is given) that its outcome is to carry.
#[derive(Debug)]
pub enum EngineRun {
    Done(EngineOutcome),
    External(ExternalEngine, Option<String>),
}

/// The run is an outcome with these fields, or the refusal of too many tuples.
pub open spec fn done_as(
    r: Result<EngineRun, String>,
    model: Model,
    target: Relation,
    definable: bool,
    fragment: Seq<char>,
    engine: Seq<char>,
) -> bool {
    match r {
        Ok(EngineRun::Done(out)) => !tuples_refused(model, target.arity as nat) && out.definable == definable
            && out.fragment@ == fragment && out.engine@ == engine && out.witness_sketch is None,
        Ok(EngineRun::External(_, _)) => false,
        Err(e) => tuples_refused(model, target.arity as nat) && e@ == refused_error(model, target.arity as nat),
    }
}

/// The run hands over to an outside engine, with this renaming.
pub open spec fn runs(r: Result<EngineRun, String>, engine: ExternalEngine, rename: Option<Seq<char>>) -> bool {
    match r {
        Ok(EngineRun::External(e, n)) => e == engine && match n {
            Some(s) => rename == Some(s@),
            None => rename is None,
        },
        _ => false,
    }
}

/// The run is refused with this message.
pub open spec fn refused_with(r: Result<EngineRun, String>, msg: Seq<char>) -> bool {
    match r {
        Err(e) => e@ == msg,
        _ => false,
    }
}

/// k of the guarded split: 0 under explosion risk, else at least 1.
pub open spec fn gf_k(model: Model, arity: nat, max_k: nat) -> nat {
    if arity >= 3 && has_ternary_op(model.operations@) {
        0
    } else if max_k >= 1 {
        max_k
    } else {
        1
    }
}

/// Depth of the atomic split: at least 1.
pub open spec fn pp_depth(max_depth: nat) -> nat {
    if max_depth >= 1 {
        max_depth
    } else {
        1
    }
}

/// What `check_engine` does for each fragment and engine.
pub open spec fn routed(
    r: Result<EngineRun, String>,
    model: Model,
    target: Relation,
    fragment: FragmentKind,
    engine: EngineKind,
    max_depth: nat,
    max_k: nat,
) -> bool {
    let arity = target.arity as nat;
    match fragment {
        FragmentKind::QfPos => done_as(
            r,
            model,
            target,
            positive_definable(model, target),
            "qf_pos"@,
            if has_ops(model.operations@) {
                "positive_split_term_collapse"@
            } else {
                "positive_split"@
            },
        ),
        FragmentKind::Ep => match engine {
            EngineKind::Ktypes => if model.operations.len() > 0 && model.universe.len() <= 6 {
                runs(r, ExternalEngine::MorphSplit, Some("ktypes_via_hom_type"@))
            } else {
                done_as(
                    r,
                    model,
                    target,
                    type_definable(model, target, KeyKind::Ep(max_depth as usize, 1)),
                    "ep"@,
                    "ep_ktypes_d"@ + int_text(max_depth as int) + "_e"@ + int_text(1) + if model.operations.len() > 0 {
                        "_ops_incomplete"@
                    } else {
                        ""@
                    },
                )
            },
            EngineKind::HomType => runs(r, ExternalEngine::MorphSplit, Some("hom_type"@)),
            EngineKind::Cert => runs(r, ExternalEngine::EpCert, None),
            _ => runs(r, ExternalEngine::MorphSplit, None),
        },
        FragmentKind::Ex => runs(r, ExternalEngine::EmbeddingSplit, None),
        FragmentKind::Pp => done_as(
            r,
            model,
            target,
            type_definable(model, target, KeyKind::Pp(pp_depth(max_depth) as usize)),
            "pp"@,
            "pp_split_d"@ + int_text(pp_depth(max_depth) as int),
        ),
        FragmentKind::AtomicConj => done_as(
            r,
            model,
            target,
            type_definable(model, target, KeyKind::Pp(pp_depth(max_depth) as usize)),
            "atomic_conj"@,
            "atomic_split_d"@ + int_text(pp_depth(max_depth) as int),
        ),
        FragmentKind::Gf => match engine {
            EngineKind::Merge => runs(r, ExternalEngine::GuardedMerge, None),
            EngineKind::Hit => refused_with(r, "gf has no hit engine"@),
            EngineKind::HomType => refused_with(r, "gf has no hom_type engine"@),
            EngineKind::Cert => refused_with(r, "gf has no cert engine"@),
            _ => done_as(
                r,
                model,
                target,
                type_definable(model, target, KeyKind::Guarded(gf_k(model, arity, max_k) as usize, target.arity)),
                "gf"@,
                "guarded_split_k"@ + int_text(gf_k(model, arity, max_k) as int),
            ),
        },
        FragmentKind::Fo => {
            let k = fo_split_k(
                model.universe.len() as nat,
                arity,
                max_k,
                arity >= 3 && has_ternary_op(model.operations@),
            );
            done_as(r, model, target, fo_definable(model, target, k), "fo"@, "fo_split_k"@ + int_text(k as int))
        },
        FragmentKind::Horn => {
            let d = horn_depth(max_depth);
            done_as(
                r,
                model,
                target,
                pp_pure(model, target, d) || horn_found(model, target, d),
                "horn"@,
                if !pp_pure(model, target, d) && horn_found(model, target, d) {
                    "horn_clauses_bfs_d"@ + int_text(d as int)
                } else {
                    "horn_pp_d"@ + int_text(d as int)
                },
            )
        },
        FragmentKind::Qf => match engine {
            EngineKind::Merge => runs(r, ExternalEngine::MegahitMerge, None),
            EngineKind::Ktypes => refused_with(r, "qf has no ktypes engine"@),
            EngineKind::HomType => refused_with(r, "qf has no hom_type engine"@),
            EngineKind::Cert => refused_with(r, "qf has no cert engine"@),
            _ => runs(r, ExternalEngine::OpenDefinability, None),
        },
    }
}

/// `prefix` followed by the decimal digits of `n`.
fn name_with(prefix: &str, n: usize) -> (r: String)
    ensures
        r@ == prefix@ + int_text(n as int),
{
    let mut s = String::new();
    push_str(&mut s, prefix);
    push_usize(&mut s, n);
    proof {
        assert(s@ =~= prefix@ + int_text(n as int));
    }
    s
}

/// Wraps an outcome, or passes a refusal on.
fn done(r: Result<EngineOutcome, String>) -> (run: Result<EngineRun, String>)
    ensures
        match r {
            Ok(out) => run matches Ok(EngineRun::Done(o)) && o == out,
            Err(e) => run matches Err(f) && f == e,
        },
{
    match r {
        Ok(out) => Ok(EngineRun::Done(out)),
        Err(e) => Err(e),
    }
}

/// The refusal `msg`.
fn refuse(msg: &str) -> (r: Result<EngineRun, String>)
    ensures
        refused_with(r, msg@),
{
    Err(msg.to_string())
}

/// Hands over to an outside engine.
fn external(engine: ExternalEngine, rename: Option<&str>) -> (r: Result<EngineRun, String>)
    ensures
        runs(
            r,
            engine,
            match rename {
                Some(s) => Some(s@),
                None => None,
            },
        ),
{
    match rename {
        Some(s) => Ok(EngineRun::External(engine, Some(s.to_string()))),
        None => Ok(EngineRun::External(engine, None)),
    }
}

/// The fragment and engine run a split here, which walks the tuples of the universe;
/// the refusals and the hand-overs to outside engines walk none.
pub open spec fn enumerates(model: Model, fragment: FragmentKind, engine: EngineKind) -> bool {
    match fragment {
        FragmentKind::Ep => engine is Ktypes && !(model.operations.len() > 0 && model.universe.len() <= 6),
        FragmentKind::Ex => false,
        FragmentKind::Gf => !(engine is Merge || engine is Hit || engine is HomType || engine is Cert),
        FragmentKind::Qf => false,
        _ => true,
    }
}

/// Whether `check_engine` walks the tuples of the universe for this fragment and engine.
pub fn enumerates_tuples(model: &Model, fragment: FragmentKind, engine: EngineKind) -> (r: bool)
    ensures
        r == enumerates(*model, fragment, engine),
{
    match fragment {
        FragmentKind::Ep => match engine {
            EngineKind::Ktypes => !(model.operations.len() > 0 && model.universe.len() <= 6),
            _ => false,
        },
        FragmentKind::Ex => false,
        FragmentKind::Gf => match engine {
            EngineKind::Merge | EngineKind::Hit | EngineKind::HomType | EngineKind::Cert => false,
            _ => true,
        },
        FragmentKind::Qf => false,
        _ => true,
    }
}

/// Runs the engine of a fragment on a target: the split engines here, and for
/// the engines that stand outside this library the hand-over to them.
pub fn check_engine(
    model: &Model,
    target: &Relation,
    fragment: FragmentKind,
    engine: EngineKind,
    max_depth: usize,
    max_k: usize,
) -> (r: Result<EngineRun, String>)
    requires
        model.wf(),
        target.arity == 0 || model.universe.len() > 0 || !enumerates(*model, fragment, engine),
    ensures
        routed(r, *model, *target, fragment, engine, max_depth as nat, max_k as nat),
{
    match fragment {
        FragmentKind::QfPos => done(check_positive_split(model, target)),
        FragmentKind::Ep => match engine {
            EngineKind::Ktypes => {
                if model.operations.len() > 0 && model.universe.len() <= 6 {
                    external(ExternalEngine::MorphSplit, Some("ktypes_via_hom_type"))
                } else {
                    let mut name = name_with("ep_ktypes_d", max_depth);
                    push_str(&mut name, "_e");
                    push_usize(&mut name, 1);
                    if model.operations.len() > 0 {
                        push_str(&mut name, "_ops_incomplete");
                    }
                    proof {
                        if model.operations.len() == 0 {
                            reveal_strlit("");
                            assert(name@ =~= "ep_ktypes_d"@ + int_text(max_depth as int) + "_e"@ + int_text(1) + ""@);
                        }
                    }
                    done(type_split(model, target, KeyKind::Ep(max_depth, 1), "ep", name.as_str()))
                }
            },
            EngineKind::HomType => external(ExternalEngine::MorphSplit, Some("hom_type")),
            EngineKind::Cert => external(ExternalEngine::EpCert, None),
            _ => external(ExternalEngine::MorphSplit, None),
        },
        FragmentKind::Ex => external(ExternalEngine::EmbeddingSplit, None),
        FragmentKind::Pp => {
            let d: usize = if max_depth >= 1 {
                max_depth
            } else {
                1
            };
            let name = name_with("pp_split_d", d);
            done(type_split(model, target, KeyKind::Pp(d), "pp", name.as_str()))
        },
        FragmentKind::AtomicConj => {
            let d: usize = if max_depth == 0 {
                1
            } else {
                max_depth
            };
            let name = name_with("atomic_split_d", d);
            done(type_split(model, target, KeyKind::Pp(d), "atomic_conj", name.as_str()))
        },
        FragmentKind::Gf => match engine {
            EngineKind::Merge => external(ExternalEngine::GuardedMerge, None),
            EngineKind::Hit => refuse("gf has no hit engine"),
            EngineKind::HomType => refuse("gf has no hom_type engine"),
            EngineKind::Cert => refuse("gf has no cert engine"),
            _ => {
                let k: usize = if type_explosion_risk(model, target.arity) {
                    0
                } else if max_k >= 1 {
                    max_k
                } else {
                    1
                };
                let name = name_with("guarded_split_k", k);
                done(type_split(model, target, KeyKind::Guarded(k, target.arity), "gf", name.as_str()))
            },
        },
        FragmentKind::Fo => {
            let k = choose_fo_split_k(model, target.arity, max_k);
            let name = name_with("fo_split_k", k);
            done(fo_type_split(model, target, k, name.as_str()))
        },
        FragmentKind::Horn => done(check_horn(model, target, max_depth)),
        FragmentKind::Qf => match engine {
            EngineKind::Merge => external(ExternalEngine::MegahitMerge, None),
            EngineKind::Ktypes => refuse("qf has no ktypes engine"),
            EngineKind::HomType => refuse("qf has no hom_type engine"),
            EngineKind::Cert => refuse("qf has no cert engine"),
            _ => external(ExternalEngine::OpenDefinability, None),
        },
    }
}

/// The outcome of the quantifier-free splitting search: definable exactly when it succeeded.
pub fn open_definability_outcome(found: bool) -> (r: EngineOutcome)
    ensures
        r.definable == found,
        r.fragment@ == "qf"@,
        r.engine@ == "hit_split"@,
        r.witness_sketch is None,
{
    EngineOutcome::basic(found, "qf", "hit_split")
}

/// An outside engine's outcome, with the engine name the dispatcher gave.
pub fn renamed(out: EngineOutcome, rename: Option<String>) -> (r: EngineOutcome)
    ensures
        r.definable == out.definable,
        r.fragment == out.fragment,
        r.witness_sketch == out.witness_sketch,
        match rename {
            Some(n) => r.engine == n,
            None => r.engine == out.engine,
        },
{
    match rename {
        Some(n) => EngineOutcome { definable: out.definable, fragment: out.fragment, engine: n, witness_sketch: out.witness_sketch },
        None => out,
    }
}

} // verus!
