//! The labels that go to sources other than the hardware sensors.
use vstd::prelude::*;

use crate::sample::Reading;
use crate::text::{begins, chars_of, equals};

verus! {

/// The source to which a label goes.
#[derive(Clone, Copy, Debug, PartialEq, Eq, Structural)]
pub enum Owner {
    /// The hardware sensors, to which all labels go that no other source has.
    Sensors,
    /// The GPU.
    Gpu,
    /// The CPUs.
    Cpu,
    /// The memory.
    Memory,
    /// The network.
    Network,
    /// The disks.
    Disks,
}

/// The source to which a label goes.
pub open spec fn owner(label: Seq<char>) -> Owner {
    if label == "nvidia GPU"@ || label == "GPU fan"@ {
        Owner::Gpu
    } else if label == "CPU total"@ || "CPU core "@.is_prefix_of(label) {
        Owner::Cpu
    } else if label == "Memory"@ {
        Owner::Memory
    } else if label == "Network RX"@ || label == "Network TX"@ {
        Owner::Network
    } else if label == "Disk read"@ || label == "Disk write"@ {
        Owner::Disks
    } else {
        Owner::Sensors
    }
}

/// The source to which a label goes.
pub fn owner_of(label: &str) -> (r: Owner)
    ensures
        r == owner(label@),
{
    let chars = chars_of(label);
    if equals(&chars, "nvidia GPU") || equals(&chars, "GPU fan") {
        Owner::Gpu
    } else if equals(&chars, "CPU total") || begins(&chars, "CPU core ") {
        Owner::Cpu
    } else if equals(&chars, "Memory") {
        Owner::Memory
    } else if equals(&chars, "Network RX") || equals(&chars, "Network TX") {
        Owner::Network
    } else if equals(&chars, "Disk read") || equals(&chars, "Disk write") {
        Owner::Disks
    } else {
        Owner::Sensors
    }
}

/// No label occurs twice.
pub open spec fn labels_differ(rs: Seq<Reading>) -> bool {
    forall|i: int, j: int|
        0 <= i < j < rs.len() ==> (#[trigger] rs[i]).label != (#[trigger] rs[j]).label
}

/// All labels go to one source.
pub open spec fn all_owned(rs: Seq<Reading>, o: Owner) -> bool {
    forall|i: int| 0 <= i < rs.len() ==> owner((#[trigger] rs[i]).label) == o
}

/// None of the labels goes to this source.
pub open spec fn none_owned(rs: Seq<Reading>, o: Owner) -> bool {
    forall|i: int| 0 <= i < rs.len() ==> owner((#[trigger] rs[i]).label) != o
}

/// What two sources give has no label twice, if neither has one twice and the one
/// has none of the other's.
pub(crate) proof fn lemma_labels_of_both_differ(a: Seq<Reading>, b: Seq<Reading>, o: Owner)
    requires
        labels_differ(a),
        labels_differ(b),
        none_owned(a, o),
        all_owned(b, o),
    ensures
        labels_differ(a + b),
        forall|p: Owner| p != o && none_owned(a, p) ==> #[trigger] none_owned(a + b, p),
{
    let c = a + b;
    assert forall|i: int, j: int| 0 <= i < j < c.len() implies (#[trigger] c[i]).label != (
    #[trigger] c[j]).label by {
        if j < a.len() {
            assert(a[i].label != a[j].label);
        } else if i >= a.len() {
            assert(b[i - a.len()].label != b[j - a.len()].label);
        } else {
            assert(owner(a[i].label) != o);
            assert(owner(b[j - a.len()].label) == o);
        }
    }
    assert forall|p: Owner| p != o && none_owned(a, p) implies #[trigger] none_owned(c, p) by {
        assert forall|i: int| 0 <= i < c.len() implies owner((#[trigger] c[i]).label) != p by {
            if i < a.len() {
                assert(owner(a[i].label) != p);
            } else {
                assert(owner(b[i - a.len()].label) == o);
            }
        }
    }
}

/// The fixed labels go to the sources that use them, and differ.
pub(crate) proof fn lemma_fixed_labels()
    ensures
        owner("nvidia GPU"@) == Owner::Gpu,
        owner("GPU fan"@) == Owner::Gpu,
        "nvidia GPU"@ != "GPU fan"@,
        owner("CPU total"@) == Owner::Cpu,
        !"CPU core "@.is_prefix_of("CPU total"@),
        owner("Memory"@) == Owner::Memory,
        owner("Network RX"@) == Owner::Network,
        owner("Network TX"@) == Owner::Network,
        "Network RX"@ != "Network TX"@,
        owner("Disk read"@) == Owner::Disks,
        owner("Disk write"@) == Owner::Disks,
        "Disk read"@ != "Disk write"@,
{
    reveal_strlit("nvidia GPU");
    reveal_strlit("GPU fan");
    reveal_strlit("CPU total");
    reveal_strlit("CPU core ");
    reveal_strlit("Memory");
    reveal_strlit("Network RX");
    reveal_strlit("Network TX");
    reveal_strlit("Disk read");
    reveal_strlit("Disk write");
    assert("nvidia GPU"@[0] == 'n' && "GPU fan"@[0] == 'G' && "CPU total"@[0] == 'C');
    assert("Memory"@[0] == 'M' && "Network RX"@[0] == 'N' && "Network TX"@[0] == 'N');
    assert("Disk read"@[0] == 'D' && "Disk write"@[0] == 'D' && "CPU core "@[0] == 'C');
    assert("Network RX"@[8] != "Network TX"@[8]);
    assert("Disk read"@.len() != "Disk write"@.len());
    assert("CPU core "@[4] == 'c' && "CPU total"@[4] == 't');
    assert forall|s: Seq<char>| "CPU core "@.is_prefix_of(s) implies #[trigger] s[0] == 'C' && s[4]
        == 'c' by {
        let p = s.subrange(0, "CPU core "@.len() as int);
        assert(p[0] == s[0] && p[4] == s[4]);
    }
}

/// A label of a CPU core goes to the CPUs.
pub(crate) proof fn lemma_core_label(core: Seq<char>)
    ensures
        owner("CPU core "@ + core) == Owner::Cpu,
        "CPU core "@ + core != "CPU total"@,
{
    let label = "CPU core "@ + core;
    lemma_fixed_labels();
    reveal_strlit("nvidia GPU");
    reveal_strlit("GPU fan");
    reveal_strlit("CPU core ");
    assert(label.subrange(0, "CPU core "@.len() as int) =~= "CPU core "@);
    assert(label[0] == 'C' && "nvidia GPU"@[0] == 'n' && "GPU fan"@[0] == 'G');
}

/// The labels of the other sources are kept from the sensors, and no others are.
pub proof fn lemma_other_labels_are_free(label: Seq<char>)
    ensures
        owner(label) == Owner::Sensors <==> !(label == "nvidia GPU"@ || label == "GPU fan"@ || label
            == "CPU total"@ || "CPU core "@.is_prefix_of(label) || label == "Memory"@ || label
            == "Network RX"@ || label == "Network TX"@ || label == "Disk read"@ || label
            == "Disk write"@),
{
}

} // verus!
