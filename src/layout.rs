//! Turning a chosen profile into an ordered list of output operations.

use crate::config::{
    lookup, output_entries, outputs_entry_at, outputs_position, setup_entries, setup_entry_at, setup_len,
    OutputMode, Profile,
};
use crate::index::IdentifierIndex;
use vstd::prelude::*;
use vstd::string::StringExecFns;

verus! {

/// One step of a layout, on displays named as the display server names them.
#[derive(Clone, Debug)]
pub enum ConfigOperation {
    /// Switch the display off.
    Disable(String),
    /// Turn the display on and make it the primary one.
    SetPrimary(String),
    /// Turn the display on to the right of the second one.
    SetSecondaryRightOf(String, String),
}

/// A `ConfigOperation` as a mathematical value.
pub enum OpView {
    Disable(Seq<char>),
    SetPrimary(Seq<char>),
    SetSecondaryRightOf(Seq<char>, Seq<char>),
}

impl View for ConfigOperation {
    type V = OpView;

    open spec fn view(&self) -> OpView {
        match self {
            ConfigOperation::Disable(n) => OpView::Disable(n@),
            ConfigOperation::SetPrimary(n) => OpView::SetPrimary(n@),
            ConfigOperation::SetSecondaryRightOf(n, a) => OpView::SetSecondaryRightOf(n@, a@),
        }
    }
}

/// Why a profile could not be turned into operations.
#[derive(Clone, Copy, Debug, PartialEq, Eq, Structural)]
pub enum CompileError {
    /// No entry of the setup is primary.
    NoPrimaryDefined,
    /// More than one entry of the setup is primary.
    MultiplePrimaryDefined,
    /// A setup key has no entry in the profile's outputs.
    UnknownOutputKey,
    /// A display of the profile is not connected.
    IdentifierNotConnected,
}

/// The views of a list of operations.
pub open spec fn ops_view(ops: Seq<ConfigOperation>) -> Seq<OpView> {
    ops.map_values(|o: ConfigOperation| o@)
}

/// The positions, in order, of the primary entries of a setup.
pub open spec fn primary_positions(setup: Seq<(Seq<char>, OutputMode)>) -> Seq<int>
    decreases setup.len(),
{
    if setup.len() == 0 {
        Seq::empty()
    } else {
        let pre = primary_positions(setup.drop_last());
        if setup.last().1 == OutputMode::Primary {
            pre.push(setup.len() - 1)
        } else {
            pre
        }
    }
}

/// The key of the one primary entry of a setup.
pub open spec fn primary_key(setup: Seq<(Seq<char>, OutputMode)>) -> Result<Seq<char>, CompileError> {
    let m = primary_positions(setup);
    if m.len() == 0 {
        Err(CompileError::NoPrimaryDefined)
    } else if m.len() >= 2 {
        Err(CompileError::MultiplePrimaryDefined)
    } else {
        Ok(setup[m[0]].0)
    }
}

/// The system name of the display that output key `key` stands for.
pub open spec fn resolve(
    outputs: Seq<(Seq<char>, Seq<char>)>,
    index: Seq<(Seq<char>, Seq<char>)>,
    key: Seq<char>,
) -> Result<Seq<char>, CompileError> {
    match lookup(outputs, key) {
        None => Err(CompileError::UnknownOutputKey),
        Some(id) => match lookup(index, id) {
            None => Err(CompileError::IdentifierNotConnected),
            Some(name) => Ok(name),
        },
    }
}

/// The operation for a display named `name` in mode `mode`.
pub open spec fn op_for(mode: OutputMode, name: Seq<char>, primary: Seq<char>) -> OpView {
    match mode {
        OutputMode::Off => OpView::Disable(name),
        OutputMode::Primary => OpView::SetPrimary(name),
        OutputMode::Secondary => OpView::SetSecondaryRightOf(name, primary),
    }
}

/// One operation per setup entry, in setup order; the first entry that
/// does not resolve gives the error.
pub open spec fn setup_ops(
    setup: Seq<(Seq<char>, OutputMode)>,
    outputs: Seq<(Seq<char>, Seq<char>)>,
    index: Seq<(Seq<char>, Seq<char>)>,
    primary: Seq<char>,
) -> Result<Seq<OpView>, CompileError>
    decreases setup.len(),
{
    if setup.len() == 0 {
        Ok(Seq::empty())
    } else {
        match setup_ops(setup.drop_last(), outputs, index, primary) {
            Err(e) => Err(e),
            Ok(ops) => match resolve(outputs, index, setup.last().0) {
                Err(e) => Err(e),
                Ok(name) => Ok(ops.push(op_for(setup.last().1, name, primary))),
            },
        }
    }
}

/// The operations of a profile against the connected displays: none for an
/// empty setup; otherwise the primary entry is found and resolved first,
/// then every entry in setup order.
pub open spec fn compile_spec(p: Profile, index: Seq<(Seq<char>, Seq<char>)>) -> Result<Seq<OpView>, CompileError> {
    if setup_entries(p.setup).len() == 0 {
        Ok(Seq::empty())
    } else {
        match primary_key(setup_entries(p.setup)) {
            Err(e) => Err(e),
            Ok(k) => match resolve(output_entries(p.outputs), index, k) {
                Err(e) => Err(e),
                Ok(primary) => setup_ops(setup_entries(p.setup), output_entries(p.outputs), index, primary),
            },
        }
    }
}

proof fn lemma_primary_positions_step(setup: Seq<(Seq<char>, OutputMode)>, i: int)
    requires
        0 <= i < setup.len(),
    ensures
        primary_positions(setup.take(i + 1)) == if setup[i].1 == OutputMode::Primary {
            primary_positions(setup.take(i)).push(i)
        } else {
            primary_positions(setup.take(i))
        },
{
    assert(setup.take(i + 1).drop_last() =~= setup.take(i));
}

/// The key of the profile's one primary entry.
pub fn get_primary_output_key(profile: &Profile) -> (r: Result<&String, CompileError>)
    ensures
        r is Ok ==> primary_key(setup_entries(profile.setup)) == Ok::<Seq<char>, CompileError>(r.unwrap()@),
        r is Err ==> primary_key(setup_entries(profile.setup)) == Err::<Seq<char>, CompileError>(r.unwrap_err()),
{
    let ghost setup = setup_entries(profile.setup);
    let len = setup_len(&profile.setup);
    let mut found: Option<&String> = None;
    let mut count: usize = 0;
    let mut i: usize = 0;
    while i < len
        invariant
            i <= len,
            len == setup.len(),
            setup == setup_entries(profile.setup),
            count == primary_positions(setup.take(i as int)).len(),
            count <= i,
            count == 0 <==> found is None,
            found is Some ==> found.unwrap()@ == setup[primary_positions(setup.take(i as int))[0]].0,
        decreases len - i,
    {
        proof {
            lemma_primary_positions_step(setup, i as int);
        }
        let (key, mode) = setup_entry_at(&profile.setup, i).unwrap();
        if *mode == OutputMode::Primary {
            if found.is_none() {
                found = Some(key);
            }
            count = count + 1;
        }
        i = i + 1;
    }
    assert(setup.take(i as int) =~= setup);
    if count == 0 {
        Err(CompileError::NoPrimaryDefined)
    } else if count >= 2 {
        Err(CompileError::MultiplePrimaryDefined)
    } else {
        Ok(found.unwrap())
    }
}

/// The system name of the display that output key `key` stands for.
fn resolve_key<'a>(profile: &Profile, index: &'a IdentifierIndex, key: &String) -> (r: Result<&'a String, CompileError>)
    requires
        index.wf(),
    ensures
        r is Ok ==> resolve(output_entries(profile.outputs), index@, key@) == Ok::<Seq<char>, CompileError>(r.unwrap()@),
        r is Err ==> resolve(output_entries(profile.outputs), index@, key@) == Err::<Seq<char>, CompileError>(r.unwrap_err()),
{
    let ghost outputs = output_entries(profile.outputs);
    match outputs_position(&profile.outputs, key) {
        None => Err(CompileError::UnknownOutputKey),
        Some(pos) => {
            let (_, id) = outputs_entry_at(&profile.outputs, pos).unwrap();
            assert(lookup(outputs, key@) == Some(outputs[pos as int].1));
            match index.system_name_of(id) {
                None => Err(CompileError::IdentifierNotConnected),
                Some(name) => Ok(name),
            }
        },
    }
}

/// The operation for a display named `name` in mode `mode`.
fn make_op(mode: OutputMode, name: &String, primary: &String) -> (r: ConfigOperation)
    ensures
        r@ == op_for(mode, name@, primary@),
{
    match mode {
        OutputMode::Off => ConfigOperation::Disable(name.clone()),
        OutputMode::Primary => ConfigOperation::SetPrimary(name.clone()),
        OutputMode::Secondary => ConfigOperation::SetSecondaryRightOf(name.clone(), primary.clone()),
    }
}

proof fn lemma_setup_ops_step(
    setup: Seq<(Seq<char>, OutputMode)>,
    outputs: Seq<(Seq<char>, Seq<char>)>,
    index: Seq<(Seq<char>, Seq<char>)>,
    primary: Seq<char>,
    i: int,
)
    requires
        0 <= i < setup.len(),
    ensures
        setup_ops(setup.take(i + 1), outputs, index, primary) == match setup_ops(setup.take(i), outputs, index, primary) {
            Err(e) => Err(e),
            Ok(ops) => match resolve(outputs, index, setup[i].0) {
                Err(e) => Err(e),
                Ok(name) => Ok(ops.push(op_for(setup[i].1, name, primary))),
            },
        },
{
    assert(setup.take(i + 1).drop_last() =~= setup.take(i));
}

/// An error in a prefix of the setup is the error of the whole setup.
proof fn lemma_setup_ops_error_stays(
    setup: Seq<(Seq<char>, OutputMode)>,
    outputs: Seq<(Seq<char>, Seq<char>)>,
    index: Seq<(Seq<char>, Seq<char>)>,
    primary: Seq<char>,
    n: int,
)
    requires
        0 <= n <= setup.len(),
        setup_ops(setup.take(n), outputs, index, primary) is Err,
    ensures
        setup_ops(setup, outputs, index, primary) == setup_ops(setup.take(n), outputs, index, primary),
    decreases setup.len() - n,
{
    if n == setup.len() {
        assert(setup.take(n) =~= setup);
    } else {
        lemma_setup_ops_step(setup, outputs, index, primary, n);
        lemma_setup_ops_error_stays(setup, outputs, index, primary, n + 1);
    }
}

/// Turns a profile into its operations: one per setup entry, in setup
/// order, with each secondary display placed right of the primary one.
pub fn compile_layout(profile: &Profile, index: &IdentifierIndex) -> (r: Result<Vec<ConfigOperation>, CompileError>)
    requires
        index.wf(),
    ensures
        r is Ok ==> compile_spec(*profile, index@) == Ok::<Seq<OpView>, CompileError>(ops_view(r.unwrap()@)),
        r is Err ==> compile_spec(*profile, index@) == Err::<Seq<OpView>, CompileError>(r.unwrap_err()),
{
    let ghost setup = setup_entries(profile.setup);
    let ghost outputs = output_entries(profile.outputs);
    let len = setup_len(&profile.setup);
    if len == 0 {
        let ops: Vec<ConfigOperation> = Vec::new();
        assert(ops_view(ops@) =~= Seq::<OpView>::empty());
        return Ok(ops);
    }
    let primary_key = match get_primary_output_key(profile) {
        Ok(k) => k,
        Err(e) => {
            return Err(e);
        },
    };
    let primary = match resolve_key(profile, index, primary_key) {
        Ok(n) => n,
        Err(e) => {
            return Err(e);
        },
    };
    let mut ops: Vec<ConfigOperation> = Vec::new();
    let mut i: usize = 0;
    assert(setup.take(0) =~= Seq::<(Seq<char>, OutputMode)>::empty());
    assert(ops_view(ops@) =~= Seq::<OpView>::empty());
    while i < len
        invariant
            i <= len,
            len == setup.len(),
            setup == setup_entries(profile.setup),
            outputs == output_entries(profile.outputs),
            index.wf(),
            compile_spec(*profile, index@) == setup_ops(setup, outputs, index@, primary@),
            setup_ops(setup.take(i as int), outputs, index@, primary@) == Ok::<Seq<OpView>, CompileError>(ops_view(ops@)),
        decreases len - i,
    {
        proof {
            lemma_setup_ops_step(setup, outputs, index@, primary@, i as int);
        }
        let (key, mode) = setup_entry_at(&profile.setup, i).unwrap();
        let name = match resolve_key(profile, index, key) {
            Ok(n) => n,
            Err(e) => {
                proof {
                    lemma_setup_ops_error_stays(setup, outputs, index@, primary@, i + 1);
                }
                return Err(e);
            },
        };
        let op = make_op(*mode, name, primary);
        let ghost prev = ops@;
        ops.push(op);
        assert(ops_view(ops@) =~= ops_view(prev).push(op@));
        i = i + 1;
    }
    assert(setup.take(i as int) =~= setup);
    Ok(ops)
}

/// A setup has a primary position exactly where its mode is primary.
proof fn lemma_primary_positions_exact(setup: Seq<(Seq<char>, OutputMode)>, k: int)
    requires
        0 <= k < setup.len(),
    ensures
        primary_positions(setup).contains(k) <==> setup[k].1 == OutputMode::Primary,
    decreases setup.len(),
{
    let pre = primary_positions(setup.drop_last());
    lemma_primary_positions_below(setup.drop_last());
    if k < setup.len() - 1 {
        lemma_primary_positions_exact(setup.drop_last(), k);
        if setup.last().1 == OutputMode::Primary {
            let q = pre.push(setup.len() - 1);
            if q.contains(k) {
                let a = choose|a: int| 0 <= a < q.len() && q[a] == k;
                assert(a < pre.len());
                assert(pre[a] == k);
            }
            if pre.contains(k) {
                let a = choose|a: int| 0 <= a < pre.len() && pre[a] == k;
                assert(q[a] == k);
            }
        }
    } else {
        if setup.last().1 == OutputMode::Primary {
            assert(pre.push(setup.len() - 1)[pre.len() as int] == k);
        } else if pre.contains(k) {
            let a = choose|a: int| 0 <= a < pre.len() && pre[a] == k;
            assert(pre[a] < setup.len() - 1);
        }
    }
}

proof fn lemma_primary_positions_below(setup: Seq<(Seq<char>, OutputMode)>)
    ensures
        forall|a: int| 0 <= a < primary_positions(setup).len() ==> 0 <= #[trigger] primary_positions(setup)[a] < setup.len(),
    decreases setup.len(),
{
    if setup.len() > 0 {
        lemma_primary_positions_below(setup.drop_last());
        let pre = primary_positions(setup.drop_last());
        let m = primary_positions(setup);
        assert forall|a: int| 0 <= a < m.len() implies 0 <= #[trigger] m[a] < setup.len() by {
            if a < pre.len() {
                assert(m[a] == pre[a]);
            }
        }
    }
}

/// Primary count: a profile whose non-empty setup has no primary entry
/// fails with `NoPrimaryDefined`, and one with two or more fails with
/// `MultiplePrimaryDefined`. (An empty setup compiles to no operations.)
pub proof fn lemma_primary_count(p: Profile, index: Seq<(Seq<char>, Seq<char>)>)
    ensures
        setup_entries(p.setup).len() > 0 && (forall|i: int|
            0 <= i < setup_entries(p.setup).len() ==> #[trigger] setup_entries(p.setup)[i].1 != OutputMode::Primary)
            ==> compile_spec(p, index) == Err::<Seq<OpView>, CompileError>(CompileError::NoPrimaryDefined),
        (exists|i: int, j: int|
            0 <= i < j < setup_entries(p.setup).len() && #[trigger] setup_entries(p.setup)[i].1 == OutputMode::Primary
                && #[trigger] setup_entries(p.setup)[j].1 == OutputMode::Primary)
            ==> compile_spec(p, index) == Err::<Seq<OpView>, CompileError>(CompileError::MultiplePrimaryDefined),
{
    let setup = setup_entries(p.setup);
    let m = primary_positions(setup);
    lemma_primary_positions_below(setup);
    if forall|i: int| 0 <= i < setup.len() ==> #[trigger] setup[i].1 != OutputMode::Primary {
        if m.len() > 0 {
            lemma_primary_positions_exact(setup, m[0]);
            assert(m.contains(m[0]));
        }
    }
    if exists|i: int, j: int|
        0 <= i < j < setup.len() && #[trigger] setup[i].1 == OutputMode::Primary && #[trigger] setup[j].1 == OutputMode::Primary {
        let (i, j) = choose|i: int, j: int|
            0 <= i < j < setup.len() && #[trigger] setup[i].1 == OutputMode::Primary && #[trigger] setup[j].1 == OutputMode::Primary;
        lemma_primary_positions_exact(setup, i);
        lemma_primary_positions_exact(setup, j);
        let a = choose|a: int| 0 <= a < m.len() && m[a] == i;
        let b = choose|b: int| 0 <= b < m.len() && m[b] == j;
        assert(a != b);
    }
}

/// Idempotence: two compilations of one profile against one index give the
/// same operations, and so the same arguments.
pub proof fn lemma_compile_repeatable(
    p: Profile,
    index: Seq<(Seq<char>, Seq<char>)>,
    first: Seq<ConfigOperation>,
    second: Seq<ConfigOperation>,
)
    requires
        compile_spec(p, index) == Ok::<Seq<OpView>, CompileError>(ops_view(first)),
        compile_spec(p, index) == Ok::<Seq<OpView>, CompileError>(ops_view(second)),
    ensures
        ops_view(first) == ops_view(second),
        args_of(ops_view(first)) == args_of(ops_view(second)),
{
}

/// Order preservation: the operations follow the setup entry by entry; the
/// i-th operation is the one for the i-th setup entry.
pub proof fn lemma_ops_follow_setup(
    setup: Seq<(Seq<char>, OutputMode)>,
    outputs: Seq<(Seq<char>, Seq<char>)>,
    index: Seq<(Seq<char>, Seq<char>)>,
    primary: Seq<char>,
)
    ensures
        setup_ops(setup, outputs, index, primary) is Ok <==> forall|i: int|
            0 <= i < setup.len() ==> resolve(outputs, index, #[trigger] setup[i].0) is Ok,
        setup_ops(setup, outputs, index, primary) is Ok ==> setup_ops(setup, outputs, index, primary).unwrap().len() == setup.len(),
        setup_ops(setup, outputs, index, primary) is Ok ==> forall|i: int|
            0 <= i < setup.len() ==> #[trigger] setup_ops(setup, outputs, index, primary).unwrap()[i] == op_for(
                setup[i].1,
                resolve(outputs, index, setup[i].0).unwrap(),
                primary,
            ),
    decreases setup.len(),
{
    if setup.len() > 0 {
        let pre = setup.drop_last();
        lemma_ops_follow_setup(pre, outputs, index, primary);
        assert forall|i: int| 0 <= i < pre.len() implies #[trigger] pre[i] == setup[i] by {}
        if setup_ops(pre, outputs, index, primary) is Err {
            let i = choose|i: int| 0 <= i < pre.len() && !(resolve(outputs, index, #[trigger] pre[i].0) is Ok);
            assert(setup[i] == pre[i]);
        } else if resolve(outputs, index, setup.last().0) is Err {
            assert(!(resolve(outputs, index, setup[setup.len() - 1].0) is Ok));
        } else {
            assert forall|i: int| 0 <= i < setup.len() implies resolve(outputs, index, #[trigger] setup[i].0) is Ok by {
                if i < pre.len() {
                    assert(setup[i] == pre[i]);
                }
            }
        }
    }
}

/// Order preservation, reordering: with the same primary display, a setup
/// whose entries are those of another taken in the order `perm` gives that
/// setup's operations in the order `perm`.
pub proof fn lemma_reordered_setup(
    setup: Seq<(Seq<char>, OutputMode)>,
    reordered: Seq<(Seq<char>, OutputMode)>,
    perm: Seq<int>,
    outputs: Seq<(Seq<char>, Seq<char>)>,
    index: Seq<(Seq<char>, Seq<char>)>,
    primary: Seq<char>,
)
    requires
        perm.len() == reordered.len(),
        forall|i: int| 0 <= i < perm.len() ==> 0 <= #[trigger] perm[i] < setup.len(),
        forall|i: int| 0 <= i < perm.len() ==> #[trigger] reordered[i] == setup[perm[i]],
        setup_ops(setup, outputs, index, primary) is Ok,
    ensures
        setup_ops(reordered, outputs, index, primary) is Ok,
        setup_ops(reordered, outputs, index, primary).unwrap().len() == perm.len(),
        forall|i: int| 0 <= i < perm.len() ==> #[trigger] setup_ops(reordered, outputs, index, primary).unwrap()[i]
            == setup_ops(setup, outputs, index, primary).unwrap()[perm[i]],
{
    lemma_ops_follow_setup(setup, outputs, index, primary);
    lemma_ops_follow_setup(reordered, outputs, index, primary);
    assert forall|i: int| 0 <= i < reordered.len() implies resolve(outputs, index, #[trigger] reordered[i].0) is Ok by {
        assert(reordered[i] == setup[perm[i]]);
    }
    let a = setup_ops(reordered, outputs, index, primary).unwrap();
    let b = setup_ops(setup, outputs, index, primary).unwrap();
    assert forall|i: int| 0 <= i < perm.len() implies #[trigger] a[i] == b[perm[i]] by {
        assert(reordered[i] == setup[perm[i]]);
    }
}

/// The primary positions of a setup rise strictly.
proof fn lemma_primary_positions_sorted(setup: Seq<(Seq<char>, OutputMode)>)
    ensures
        forall|a: int, b: int| 0 <= a < b < primary_positions(setup).len() ==> #[trigger] primary_positions(setup)[a]
            < #[trigger] primary_positions(setup)[b],
    decreases setup.len(),
{
    if setup.len() > 0 {
        lemma_primary_positions_sorted(setup.drop_last());
        lemma_primary_positions_below(setup.drop_last());
        let pre = primary_positions(setup.drop_last());
        let m = primary_positions(setup);
        assert forall|a: int, b: int| 0 <= a < b < m.len() implies #[trigger] m[a] < #[trigger] m[b] by {
            assert(m[a] == pre[a]);
            if b < pre.len() {
                assert(m[b] == pre[b]);
            }
        }
    }
}

/// A setup's primary key is that of its one primary entry, when it has
/// exactly one.
proof fn lemma_single_primary(setup: Seq<(Seq<char>, OutputMode)>, k: int)
    requires
        0 <= k < setup.len(),
        setup[k].1 == OutputMode::Primary,
        forall|j: int| 0 <= j < setup.len() && j != k ==> #[trigger] setup[j].1 != OutputMode::Primary,
    ensures
        primary_key(setup) == Ok::<Seq<char>, CompileError>(setup[k].0),
{
    let m = primary_positions(setup);
    lemma_primary_positions_exact(setup, k);
    lemma_primary_positions_below(setup);
    lemma_primary_positions_sorted(setup);
    assert forall|b: int| 0 <= b < m.len() implies m[b] == k by {
        lemma_primary_positions_exact(setup, m[b]);
        assert(m.contains(m[b]));
    }
    let a = choose|a: int| 0 <= a < m.len() && m[a] == k;
    if m.len() > 1 {
        assert(m[0] < m[1]);
    }
}

/// Order preservation, for whole profiles: a profile with the same outputs
/// whose setup holds the entries of another's in the order `perm` (a
/// permutation of the positions) compiles whenever the other does, to that
/// profile's operations, and so argument groups, in the order `perm`.
pub proof fn lemma_reordered_profile(p: Profile, q: Profile, perm: Seq<int>, index: Seq<(Seq<char>, Seq<char>)>)
    requires
        output_entries(q.outputs) == output_entries(p.outputs),
        perm.len() == setup_entries(p.setup).len(),
        setup_entries(q.setup).len() == setup_entries(p.setup).len(),
        forall|i: int| 0 <= i < perm.len() ==> 0 <= #[trigger] perm[i] < setup_entries(p.setup).len(),
        forall|i: int, j: int| 0 <= i < j < perm.len() ==> #[trigger] perm[i] != #[trigger] perm[j],
        forall|k: int| 0 <= k < setup_entries(p.setup).len() ==> #[trigger] perm.contains(k),
        forall|i: int| 0 <= i < perm.len() ==> #[trigger] setup_entries(q.setup)[i] == setup_entries(p.setup)[perm[i]],
        compile_spec(p, index) is Ok,
    ensures
        compile_spec(q, index) is Ok,
        compile_spec(q, index).unwrap().len() == perm.len(),
        forall|i: int| 0 <= i < perm.len() ==> #[trigger] compile_spec(q, index).unwrap()[i] == compile_spec(p, index).unwrap()[perm[i]],
        forall|i: int| 0 <= i < perm.len() ==> #[trigger] op_args(compile_spec(q, index).unwrap()[i]) == op_args(
            compile_spec(p, index).unwrap()[perm[i]],
        ),
{
    let sp = setup_entries(p.setup);
    let sq = setup_entries(q.setup);
    let outputs = output_entries(p.outputs);
    if sp.len() == 0 {
        return;
    }
    let m = primary_positions(sp);
    lemma_primary_positions_below(sp);
    let k = m[0];
    lemma_primary_positions_exact(sp, k);
    assert(m.contains(k));
    assert forall|j: int| 0 <= j < sp.len() && j != k implies #[trigger] sp[j].1 != OutputMode::Primary by {
        lemma_primary_positions_exact(sp, j);
        lemma_primary_positions_sorted(sp);
        if m.contains(j) {
            let a = choose|a: int| 0 <= a < m.len() && m[a] == j;
            assert(a != 0);
            assert(m[0] < m[a]);
        }
    }
    assert(perm.contains(k));
    let i0 = choose|i: int| 0 <= i < perm.len() && #[trigger] perm[i] == k;
    assert(sq[i0] == sp[perm[i0]]);
    assert forall|j: int| 0 <= j < sq.len() && j != i0 implies #[trigger] sq[j].1 != OutputMode::Primary by {
        assert(sq[j] == sp[perm[j]]);
        if j < i0 {
            assert(perm[j] != perm[i0]);
        } else {
            assert(perm[i0] != perm[j]);
        }
    }
    lemma_single_primary(sp, k);
    lemma_single_primary(sq, i0);
    let pn = resolve(outputs, index, sp[k].0).unwrap();
    lemma_reordered_setup(sp, sq, perm, outputs, index, pn);
}

/// The command-line words of one operation.
pub open spec fn op_args(o: OpView) -> Seq<Seq<char>> {
    match o {
        OpView::Disable(n) => seq!["--output"@, n, "--off"@],
        OpView::SetPrimary(n) => seq!["--output"@, n, "--auto"@, "--primary"@],
        OpView::SetSecondaryRightOf(n, a) => seq!["--output"@, n, "--auto"@, "--right-of"@, a],
    }
}

/// The command-line words of a list of operations, one group after another.
pub open spec fn args_of(ops: Seq<OpView>) -> Seq<Seq<char>>
    decreases ops.len(),
{
    if ops.len() == 0 {
        Seq::empty()
    } else {
        args_of(ops.drop_last()) + op_args(ops.last())
    }
}

/// The strings of a list, as mathematical values.
pub open spec fn strings_view(v: Seq<String>) -> Seq<Seq<char>> {
    v.map_values(|s: String| s@)
}

/// Appends `s` to `out`.
fn push_str(out: &mut Vec<String>, s: &str)
    ensures
        strings_view(final(out)@) == strings_view(old(out)@).push(s@),
{
    let ghost prev = out@;
    out.push(String::from_str(s));
    assert(strings_view(out@) =~= strings_view(prev).push(s@));
}

/// Appends a copy of `s` to `out`.
fn push_string(out: &mut Vec<String>, s: &String)
    ensures
        strings_view(final(out)@) == strings_view(old(out)@).push(s@),
{
    let ghost prev = out@;
    out.push(s.clone());
    assert(strings_view(out@) =~= strings_view(prev).push(s@));
}

/// The command-line words of the operations, in order.
pub fn operation_args(ops: &Vec<ConfigOperation>) -> (r: Vec<String>)
    ensures
        strings_view(r@) == args_of(ops_view(ops@)),
{
    let mut r: Vec<String> = Vec::new();
    let mut i: usize = 0;
    assert(strings_view(r@) =~= Seq::<Seq<char>>::empty());
    assert(ops_view(ops@.take(0)) =~= Seq::<OpView>::empty());
    while i < ops.len()
        invariant
            i <= ops@.len(),
            strings_view(r@) == args_of(ops_view(ops@.take(i as int))),
        decreases ops@.len() - i,
    {
        let ghost before = strings_view(r@);
        assert(ops_view(ops@.take(i + 1)).drop_last() =~= ops_view(ops@.take(i as int)));
        push_str(&mut r, "--output");
        match &ops[i] {
            ConfigOperation::Disable(n) => {
                push_string(&mut r, n);
                push_str(&mut r, "--off");
            },
            ConfigOperation::SetPrimary(n) => {
                push_string(&mut r, n);
                push_str(&mut r, "--auto");
                push_str(&mut r, "--primary");
            },
            ConfigOperation::SetSecondaryRightOf(n, a) => {
                push_string(&mut r, n);
                push_str(&mut r, "--auto");
                push_str(&mut r, "--right-of");
                push_string(&mut r, a);
            },
        }
        assert(strings_view(r@) =~= before + op_args(ops@[i as int]@));
        i = i + 1;
    }
    assert(ops@.take(i as int) =~= ops@);
    r
}

/// The command-line words that apply a profile against the connected
/// displays.
pub fn compute_cmd_args(outputs_by_edid: &IdentifierIndex, profile: &Profile) -> (r: Result<Vec<String>, CompileError>)
    requires
        outputs_by_edid.wf(),
    ensures
        r is Ok <==> compile_spec(*profile, outputs_by_edid@) is Ok,
        r is Ok ==> strings_view(r.unwrap()@) == args_of(compile_spec(*profile, outputs_by_edid@).unwrap()),
        r is Err ==> compile_spec(*profile, outputs_by_edid@) == Err::<Seq<OpView>, CompileError>(r.unwrap_err()),
{
    match compile_layout(profile, outputs_by_edid) {
        Ok(ops) => Ok(operation_args(&ops)),
        Err(e) => Err(e),
    }
}

} // verus!
