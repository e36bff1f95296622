//! Compiles drawn circuits to templates, ready for [`crate::netlist::flatten`].
//!
//! Wires connect by position: two pins are connected where they are at the same place, and
//! where wires and splitters lead from one to the other, bit by bit. Every output bit of a net
//! drives every input bit of it.
use vstd::prelude::*;
use crate::compile::circuit::compile_circuit;
use crate::compile::error::CompileErrorView;
use crate::compile::ports::{all_ports, PortTable, PortWidths};
use crate::components::GateView;
use crate::file_format::{Circuit, ProjectFile};
use crate::name_map::NameMap;
use crate::netlist;
use crate::netlist::{CircuitTemplate, Library};

pub mod arithmetic;
pub mod attrs;
pub mod circuit;
pub mod drawing;
pub mod error;
pub mod geometry;
pub mod io;
pub mod logic;
pub mod meaning;
pub mod memory;
pub mod nets;
pub mod parts;
pub mod plexers;
pub mod ports;
pub mod soundness;
pub mod splitter;
pub mod wiring;

pub use crate::compile::error::CompileError;

verus! {

/// The port widths of a project's circuits.
pub open spec fn table_of(circuits: Seq<Circuit>) -> Map<Seq<char>, PortWidths> {
    ports::port_table(circuits, circuits.len())
}

/// The first thing that is wrong with the first `k` circuits.
pub open spec fn project_error(circuits: Seq<Circuit>, k: nat) -> Option<CompileErrorView>
    decreases k,
{
    if k == 0 {
        None
    } else {
        match project_error(circuits, (k - 1) as nat) {
            Some(e) => Some(e),
            None => parts::circuit_error(
                table_of(circuits),
                circuits[k - 1],
                circuits[k - 1].components@.len(),
            ),
        }
    }
}

/// The last of the first `k` circuits with a name.
pub open spec fn last_named(circuits: Seq<Circuit>, name: Seq<char>, k: nat) -> Option<int>
    decreases k,
{
    if k == 0 {
        None
    } else if circuits[k - 1].name@ == name {
        Some(k - 1)
    } else {
        last_named(circuits, name, (k - 1) as nat)
    }
}

/// The library holds, under every name of one of the first `k` circuits, what the last circuit
/// of that name compiles to.
pub open spec fn is_library(
    circuits: Seq<Circuit>,
    k: nat,
    lib: Map<Seq<char>, CircuitTemplate>,
) -> bool {
    forall|name: Seq<char>|
        match last_named(circuits, name, k) {
            Some(i) => #[trigger] lib.contains_key(name) && circuit::is_compiled(
                table_of(circuits),
                circuits[i],
                lib[name],
            ),
            None => !lib.contains_key(name),
        }
}

proof fn project_error_stays(circuits: Seq<Circuit>, j: nat, k: nat)
    requires
        j <= k,
        project_error(circuits, j) is Some,
    ensures
        project_error(circuits, k) == project_error(circuits, j),
    decreases k,
{
    if j < k {
        project_error_stays(circuits, j, (k - 1) as nat);
    }
}

/// Compiles all circuits of a project. Fails with the first thing that is wrong: in the first
/// circuit in which something is, with its first component.
pub fn compile(project: &ProjectFile) -> (r: Result<Library, CompileError>)
    ensures
        match (r, project_error(project.circuits@, project.circuits@.len())) {
            (Ok(library), None) => is_library(
                project.circuits@,
                project.circuits@.len(),
                library@,
            ),
            (Err(e), Some(want)) => e@ == want,
            _ => false,
        },
        r matches Ok(library) ==> netlist::leaves_satisfy(
            library@,
            |g: GateView| g.runnable() && g.tolerates(u64::MAX as nat),
        ) && forall|name: Seq<char>|
            #[trigger] netlist::can_elaborate(library@, name, Seq::empty(), true),
{
    let ghost circuits = project.circuits@;
    let table: PortTable = all_ports(&project.circuits);
    let mut library: Library = NameMap::new();
    for k in 0..project.circuits.len()
        invariant
            circuits == project.circuits@,
            ports::table_view(table@) == table_of(circuits),
            ports::is_sane(table_of(circuits)),
            project_error(circuits, k as nat) is None,
            is_library(circuits, k as nat, library@),
    {
        let ghost before = library@;
        match compile_circuit(&project.circuits[k], &table) {
            Ok(template) => {
                let ghost t = template;
                library.insert(project.circuits[k].name.clone(), template);
                proof {
                    assert forall|name: Seq<char>| match last_named(circuits, name, (k + 1) as nat) {
                        Some(i) => #[trigger] library@.contains_key(name) && circuit::is_compiled(
                            table_of(circuits),
                            circuits[i],
                            library@[name],
                        ),
                        None => !library@.contains_key(name),
                    } by {
                        if name != circuits[k as int].name@ {
                            assert(library@.contains_key(name) == before.contains_key(name));
                        }
                    }
                }
            },
            Err(e) => {
                proof {
                    project_error_stays(circuits, (k + 1) as nat, circuits.len());
                }
                return Err(e);
            },
        }
    }
    proof {
        library.finite();
        soundness::compiled_is_runnable(circuits, library@);
        assert forall|n: Seq<char>| #[trigger] library@.contains_key(n) implies library@[n].nodes@.len()
            <= usize::MAX by {
            assert(library@[n].nodes.len() <= usize::MAX);
        }
        assert forall|name: Seq<char>| #[trigger] netlist::can_elaborate(
            library@,
            name,
            Seq::empty(),
            true,
        ) by {
            soundness::compiled_can_be_elaborated(circuits, library@, name, Seq::empty(), true);
        }
    }
    Ok(library)
}

} // verus!
