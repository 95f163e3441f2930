//! Whether the desktop window should start without GPU acceleration: only
//! when every display adapter attached to the desktop is a remote, mirroring
//! or software one.
use vstd::prelude::*;
use vstd::string::*;
use crate::text::{lower, to_chars};

verus! {

/// `DISPLAY_DEVICE_MIRRORING_DRIVER` of the Win32 display API.
pub const DISPLAY_DEVICE_MIRRORING_DRIVER: u32 = 0x0000_0008;

/// `DISPLAY_DEVICE_RDPUDD` of the Win32 display API.
pub const DISPLAY_DEVICE_RDPUDD: u32 = 0x0100_0000;

/// `DISPLAY_DEVICE_REMOTE` of the Win32 display API.
pub const DISPLAY_DEVICE_REMOTE: u32 = 0x0400_0000;

/// Whether `needle` occurs in `s`.
pub open spec fn contains(s: Seq<char>, needle: Seq<char>) -> bool {
    exists|i: int| 0 <= i <= s.len() - needle.len() && #[trigger] s.subrange(i, i + needle.len()) == needle
}

/// Names of adapters that render in software or remotely, lower case.
pub open spec fn virtual_adapter_names() -> Seq<Seq<char>> {
    seq![
        "microsoft basic display"@,
        "microsoft basic render"@,
        "microsoft remote display"@,
        "virtual display"@,
        "remote display"@,
        "rdp"@,
        "vmware"@,
        "svga"@,
        "virtualbox"@,
        "parallels"@,
        "hyper-v"@,
        "qxl"@,
        "virtio"@,
    ]
}

/// An adapter is virtual or software when its flags mark it remote or
/// mirroring, or its name, ASCII case ignored, holds a known name.
pub open spec fn spec_is_virtual_adapter(name: Seq<char>, state_flags: u32) -> bool {
    (state_flags & (DISPLAY_DEVICE_REMOTE | DISPLAY_DEVICE_MIRRORING_DRIVER | DISPLAY_DEVICE_RDPUDD))
        != 0 || exists|k: int|
        0 <= k < virtual_adapter_names().len() && contains(lower(name), #[trigger] virtual_adapter_names()[k])
}

fn matches_at(cs: &Vec<char>, nd: &Vec<char>, i: usize) -> (r: bool)
    requires
        i + nd@.len() <= cs@.len(),
    ensures
        r == (cs@.subrange(i as int, i + nd@.len()) == nd@),
{
    let m = nd.len();
    let n = cs.len();
    let mut k: usize = 0;
    while k < m
        invariant
            m == nd@.len(),
            n == cs@.len(),
            i + m <= cs@.len(),
            k <= m,
            forall|t: int| 0 <= t < k ==> cs@[i + t] == nd@[t],
        decreases m - k,
    {
        if cs[i + k] != nd[k] {
            assert(cs@.subrange(i as int, i + m)[k as int] != nd@[k as int]);
            return false;
        }
        k = k + 1;
    }
    assert(cs@.subrange(i as int, i + m) =~= nd@);
    true
}

fn contains_lit(cs: &Vec<char>, needle: &str) -> (r: bool)
    ensures
        r == contains(cs@, needle@),
{
    let nd = to_chars(needle);
    let m = nd.len();
    if m > cs.len() {
        return false;
    }
    if m == 0 {
        assert(cs@.subrange(0int, 0int + needle@.len()) =~= needle@);
        return true;
    }
    let mut i: usize = 0;
    while i <= cs.len() - m
        invariant
            nd@ == needle@,
            m == nd@.len(),
            m > 0,
            m <= cs@.len(),
            i <= cs@.len() - m + 1,
            forall|j: int| 0 <= j < i ==> #[trigger] cs@.subrange(j, j + m) != needle@,
        decreases cs@.len() - m + 1 - i,
    {
        if matches_at(&cs, &nd, i) {
            return true;
        }
        i = i + 1;
    }
    false
}

/// Whether an adapter named `name` with the flags `state_flags` is remote,
/// mirroring or software.
pub fn is_virtual_or_software_display_adapter(name: &str, state_flags: u32) -> (r: bool)
    ensures
        r == spec_is_virtual_adapter(name@, state_flags),
{
    if state_flags & (DISPLAY_DEVICE_REMOTE | DISPLAY_DEVICE_MIRRORING_DRIVER | DISPLAY_DEVICE_RDPUDD)
        != 0 {
        return true;
    }
    let cs = to_chars(name);
    let mut low: Vec<char> = Vec::new();
    let mut i: usize = 0;
    while i < cs.len()
        invariant
            i <= cs@.len(),
            low@ == lower(cs@.take(i as int)),
        decreases cs@.len() - i,
    {
        low.push(crate::text::char_ascii_lower(cs[i]));
        i = i + 1;
        assert(low@ =~= lower(cs@.take(i as int)));
    }
    assert(cs@.take(cs@.len() as int) =~= cs@);
    let needles = [
        "microsoft basic display",
        "microsoft basic render",
        "microsoft remote display",
        "virtual display",
        "remote display",
        "rdp",
        "vmware",
        "svga",
        "virtualbox",
        "parallels",
        "hyper-v",
        "qxl",
        "virtio",
    ];
    assert(needles@.map_values(|s: &str| s@) =~= virtual_adapter_names());
    let mut j: usize = 0;
    while j < 13
        invariant
            j <= 13,
            needles@.len() == 13,
            needles@.map_values(|s: &str| s@) == virtual_adapter_names(),
            low@ == lower(name@),
            forall|k: int| 0 <= k < j ==> !contains(low@, #[trigger] virtual_adapter_names()[k]),
        decreases 13 - j,
    {
        assert(needles@[j as int]@ == virtual_adapter_names()[j as int]);
        if contains_lit(&low, needles[j]) {
            return true;
        }
        j = j + 1;
    }
    false
}

/// Whether GPU acceleration is turned off: some adapters are attached and
/// all of them are virtual or software.
pub open spec fn spec_should_disable_gpu(adapters: Seq<(Seq<char>, u32)>) -> bool {
    adapters.len() > 0 && forall|i: int|
        0 <= i < adapters.len() ==> spec_is_virtual_adapter(#[trigger] adapters[i].0, adapters[i].1)
}

pub fn should_disable_webview_gpu(adapters: &Vec<(String, u32)>) -> (r: bool)
    ensures
        r == spec_should_disable_gpu(adapters@.map_values(|a: (String, u32)| (a.0@, a.1))),
{
    let ghost v = adapters@.map_values(|a: (String, u32)| (a.0@, a.1));
    if adapters.len() == 0 {
        return false;
    }
    let mut i: usize = 0;
    while i < adapters.len()
        invariant
            v == adapters@.map_values(|a: (String, u32)| (a.0@, a.1)),
            i <= adapters@.len(),
            forall|k: int| 0 <= k < i ==> spec_is_virtual_adapter(#[trigger] v[k].0, v[k].1),
        decreases adapters@.len() - i,
    {
        if !is_virtual_or_software_display_adapter(adapters[i].0.as_str(), adapters[i].1) {
            assert(v[i as int] == (adapters@[i as int].0@, adapters@[i as int].1));
            assert(!spec_is_virtual_adapter(v[i as int].0, v[i as int].1));
            return false;
        }
        i = i + 1;
    }
    true
}

} // verus!
