//! Devices and the registry that owns them.
//!
//! A `Device` is a stored identity: a name (the registry key), a login user,
//! a stable MAC address, and a volatile IP address. The registry is a mapping
//! from name to device; its mathematical value is a `Map` from the name's
//! character sequence to the device's `DeviceView`.

use crate::arp::{neighbor_views, Neighbor};
use crate::errors::Error;
use crate::resolve::{resolve, spec_resolve};
use vstd::pervasive::VecAdditionalExecFns;
use vstd::prelude::*;
use vstd::string::StringExecFns;

verus! {

/// A registered network device. `name` is the registry key and is unique
/// within a registry; `mac_address` is the durable identity anchor;
/// `ip_address` is the volatile field that rescans reconcile.
#[derive(Debug)]
pub struct Device {
    pub user: String,
    pub ip_address: String,
    pub mac_address: String,
    pub name: String,
}

/// The mathematical value of a `Device`: its four fields as character
/// sequences.
#[verifier::ext_equal]
pub ghost struct DeviceView {
    pub user: Seq<char>,
    pub ip_address: Seq<char>,
    pub mac_address: Seq<char>,
    pub name: Seq<char>,
}

impl View for Device {
    type V = DeviceView;

    open spec fn view(&self) -> DeviceView {
        DeviceView {
            user: self.user@,
            ip_address: self.ip_address@,
            mac_address: self.mac_address@,
            name: self.name@,
        }
    }
}

impl Device {
    pub fn new(user: String, ip_address: String, mac_address: String, name: String) -> (r: Device)
        ensures
            r@ == (DeviceView { user: user@, ip_address: ip_address@, mac_address: mac_address@, name: name@ }),
    {
        Device { user, ip_address, mac_address, name }
    }

    /// The `user@host` form handed to the remote-shell tool.
    pub fn to_address(&self) -> (r: String)
        ensures
            r@ == self.user@ + "@"@ + self.ip_address@,
    {
        let mut s = self.user.clone();
        s.append("@");
        s.append(self.ip_address.as_str());
        s
    }
}

impl Default for Device {
    /// A stock example device.
    fn default() -> (r: Device)
        ensures
            r.user@ == "server"@,
            r.ip_address@ == "192.168.1.7"@,
            r.mac_address@ == "d8:3a:dd:70:5f:62"@,
            r.name@ == "Mingus"@,
    {
        Device {
            user: String::from_str("server"),
            ip_address: String::from_str("192.168.1.7"),
            mac_address: String::from_str("d8:3a:dd:70:5f:62"),
            name: String::from_str("Mingus"),
        }
    }
}

/// True when no two devices in `s` share a name.
pub open spec fn distinct_names(s: Seq<Device>) -> bool {
    forall|i: int, j: int| 0 <= i < j < s.len() ==> (#[trigger] s[i]).name@ != (#[trigger] s[j]).name@
}

/// True when some device in `s` carries the name `n`.
pub open spec fn has_name(s: Seq<Device>, n: Seq<char>) -> bool {
    exists|i: int| 0 <= i < s.len() && (#[trigger] s[i]).name@ == n
}

/// The mapping a sequence of devices stands for: each device under its name,
/// later entries overriding earlier ones.
pub open spec fn map_of(s: Seq<Device>) -> Map<Seq<char>, DeviceView>
    decreases s.len(),
{
    if s.len() == 0 {
        Map::empty()
    } else {
        map_of(s.drop_last()).insert(s.last().name@, s.last()@)
    }
}

/// The domain of `map_of(s)` is exactly the set of names occurring in `s`.
pub proof fn lemma_map_of_dom(s: Seq<Device>)
    ensures
        forall|n: Seq<char>| #[trigger] map_of(s).contains_key(n) <==> has_name(s, n),
    decreases s.len(),
{
    if s.len() > 0 {
        lemma_map_of_dom(s.drop_last());
        assert forall|n: Seq<char>| #[trigger] map_of(s).contains_key(n) implies has_name(s, n) by {
            if n == s.last().name@ {
                assert(s[s.len() - 1].name@ == n);
            } else {
                assert(map_of(s.drop_last()).contains_key(n));
                assert(has_name(s.drop_last(), n));
                let i = choose|i: int| 0 <= i < s.drop_last().len() && (#[trigger] s.drop_last()[i]).name@ == n;
                assert(s.drop_last()[i] == s[i]);
                assert(s[i].name@ == n);
            }
        }
        assert forall|n: Seq<char>| has_name(s, n) implies #[trigger] map_of(s).contains_key(n) by {
            let i = choose|i: int| 0 <= i < s.len() && (#[trigger] s[i]).name@ == n;
            if i < s.len() - 1 {
                assert(s.drop_last()[i].name@ == n);
                assert(has_name(s.drop_last(), n));
                assert(map_of(s.drop_last()).contains_key(n));
            }
        }
    }
}

/// When names are distinct, `map_of(s)` sends each device's name to that
/// device's value.
pub proof fn lemma_map_of_index(s: Seq<Device>, i: int)
    requires
        distinct_names(s),
        0 <= i < s.len(),
    ensures
        map_of(s).contains_key(s[i].name@),
        map_of(s)[s[i].name@] == s[i]@,
    decreases s.len(),
{
    if i < s.len() - 1 {
        assert(distinct_names(s.drop_last()));
        lemma_map_of_index(s.drop_last(), i);
        assert(s.drop_last()[i] == s[i]);
        assert(s[i].name@ != s.last().name@);
    }
}

/// The values of a sequence of devices, in order.
pub open spec fn device_views(s: Seq<Device>) -> Seq<DeviceView> {
    s.map_values(|d: Device| d@)
}

pub broadcast proof fn lemma_device_views_len(s: Seq<Device>)
    ensures
        #[trigger] device_views(s).len() == s.len(),
{
}

pub broadcast proof fn lemma_device_views_index(s: Seq<Device>, i: int)
    requires
        0 <= i < s.len(),
    ensures
        #[trigger] device_views(s)[i] == s[i]@,
{
}

/// The two facts every reader of `device_views` needs: its length and its
/// elements.
pub broadcast group group_device_views {
    lemma_device_views_len,
    lemma_device_views_index,
}

/// The mapping a sequence of device values stands for: each value under its
/// name, later entries overriding earlier ones.
pub open spec fn map_of_views(s: Seq<DeviceView>) -> Map<Seq<char>, DeviceView>
    decreases s.len(),
{
    if s.len() == 0 {
        Map::empty()
    } else {
        map_of_views(s.drop_last()).insert(s.last().name, s.last())
    }
}

/// `map_of` is `map_of_views` of the devices' values.
pub proof fn lemma_map_of_views(s: Seq<Device>)
    ensures
        map_of_views(device_views(s)) == map_of(s),
    decreases s.len(),
{
    broadcast use group_device_views;

    if s.len() > 0 {
        lemma_map_of_views(s.drop_last());
        assert(device_views(s).drop_last() =~= device_views(s.drop_last()));
        assert(device_views(s).last() == s.last()@);
    }
}

/// Adding a device and then looking its name up yields that device: after
/// `add_device(d)` the registry's value is `old@.insert(d.name@, d@)`, and
/// `get_device(d.name)` reads exactly that entry.
pub proof fn lemma_add_then_get(m: Map<Seq<char>, DeviceView>, d: DeviceView)
    ensures
        m.insert(d.name, d).contains_key(d.name),
        m.insert(d.name, d)[d.name] == d,
{
}

/// Removing a name and then looking it up yields nothing: after
/// `remove_device(n)` the registry's value is `old@.remove(n@)`, and
/// `get_device(n)` finds no entry there.
pub proof fn lemma_remove_then_get(m: Map<Seq<char>, DeviceView>, n: Seq<char>)
    ensures
        !m.remove(n).contains_key(n),
{
}

/// The registry: the devices it owns, in insertion order, with pairwise
/// distinct names. Its mathematical value is the map from each device's
/// name to that device.
#[derive(Debug)]
pub struct DeviceRegistry {
    pub devices: Vec<Device>,
}

impl View for DeviceRegistry {
    type V = Map<Seq<char>, DeviceView>;

    open spec fn view(&self) -> Map<Seq<char>, DeviceView> {
        map_of(self.devices@)
    }
}

impl Default for DeviceRegistry {
    /// An empty registry.
    fn default() -> (r: DeviceRegistry)
        ensures
            r.wf(),
            r@ == Map::<Seq<char>, DeviceView>::empty(),
            r.devices@.len() == 0,
    {
        DeviceRegistry { devices: Vec::new() }
    }
}

impl DeviceRegistry {
    /// Well-formedness: no two devices share a name.
    pub open spec fn wf(&self) -> bool {
        distinct_names(self.devices@)
    }

    /// The index of the device named `name`, if any.
    fn find_index(&self, name: &str) -> (r: Option<usize>)
        ensures
            match r {
                Some(i) => i < self.devices@.len() && self.devices@[i as int].name@ == name@,
                None => !has_name(self.devices@, name@),
            },
    {
        let key: String = name.to_owned();
        let n = self.devices.len();
        for i in 0..n
            invariant
                n == self.devices@.len(),
                key@ == name@,
                forall|j: int| 0 <= j < i ==> (#[trigger] self.devices@[j]).name@ != name@,
        {
            if self.devices[i].name == key {
                return Some(i);
            }
        }
        None
    }

    /// Looks the device named `name` up, without changing anything.
    pub fn get_device(&self, name: &str) -> (r: Option<&Device>)
        requires
            self.wf(),
        ensures
            match r {
                Some(d) => self@.contains_key(name@) && d@ == self@[name@] && d.name@ == name@,
                None => !self@.contains_key(name@),
            },
    {
        proof {
            lemma_map_of_dom(self.devices@);
        }
        match self.find_index(name) {
            Some(i) => {
                proof {
                    lemma_map_of_index(self.devices@, i as int);
                }
                Some(&self.devices[i])
            },
            None => None,
        }
    }

    /// Inserts `device` under its name, silently replacing any device that
    /// already carried that name.
    pub fn add_device(&mut self, device: Device)
        requires
            old(self).wf(),
        ensures
            final(self).wf(),
            final(self)@ == old(self)@.insert(device.name@, device@),
    {
        let ghost pre = self.devices@;
        let ghost dn = device.name@;
        let ghost dv = device@;
        proof {
            lemma_map_of_dom(pre);
        }
        match self.find_index(device.name.as_str()) {
            Some(i) => {
                self.devices.set(i, device);
                proof {
                    let post = self.devices@;
                    assert forall|a: int, b: int| 0 <= a < b < post.len() implies
                        (#[trigger] post[a]).name@ != (#[trigger] post[b]).name@ by {
                        assert(pre[a].name@ != pre[b].name@);
                        if a == i as int {
                            assert(post[a].name@ == pre[a].name@);
                        }
                        if b == i as int {
                            assert(post[b].name@ == pre[b].name@);
                        }
                    }
                    lemma_map_of_dom(post);
                    assert forall|n: Seq<char>| #[trigger] map_of(post).contains_key(n) implies
                        map_of(pre).insert(dn, dv).contains_key(n) by {
                        let j = choose|j: int| 0 <= j < post.len() && (#[trigger] post[j]).name@ == n;
                        if j != i as int {
                            assert(pre[j].name@ == n);
                            assert(has_name(pre, n));
                        }
                    }
                    assert forall|n: Seq<char>| #[trigger] map_of(pre).insert(dn, dv).contains_key(n) implies
                        map_of(post).contains_key(n) by {
                        if n != dn {
                            let j = choose|j: int| 0 <= j < pre.len() && (#[trigger] pre[j]).name@ == n;
                            assert(j != i as int);
                            assert(post[j].name@ == n);
                            assert(has_name(post, n));
                        } else {
                            assert(post[i as int].name@ == n);
                            assert(has_name(post, n));
                        }
                    }
                    assert forall|n: Seq<char>| map_of(post).contains_key(n) implies
                        #[trigger] map_of(post)[n] == map_of(pre).insert(dn, dv)[n] by {
                        let j = choose|j: int| 0 <= j < post.len() && (#[trigger] post[j]).name@ == n;
                        lemma_map_of_index(post, j);
                        if n != dn {
                            assert(j != i as int);
                            assert(pre[j].name@ == n);
                            lemma_map_of_index(pre, j);
                        }
                    }
                    assert(map_of(post) =~= map_of(pre).insert(dn, dv));
                }
            },
            None => {
                self.devices.push(device);
                proof {
                    let post = self.devices@;
                    assert(post.drop_last() =~= pre);
                    assert forall|a: int, b: int| 0 <= a < b < post.len() implies
                        (#[trigger] post[a]).name@ != (#[trigger] post[b]).name@ by {
                        if b == post.len() - 1 {
                            assert(pre[a].name@ != dn) by {
                                assert(!has_name(pre, dn));
                            }
                        } else {
                            assert(pre[a].name@ != pre[b].name@);
                        }
                    }
                    assert(map_of(post) == map_of(pre).insert(dn, dv));
                }
            },
        }
    }

    /// Removes and returns the device named `name`; `None` when no such
    /// device is registered, in which case nothing changes.
    pub fn remove_device(&mut self, name: &str) -> (r: Option<Device>)
        requires
            old(self).wf(),
        ensures
            final(self).wf(),
            match r {
                Some(d) => old(self)@.contains_key(name@) && d@ == old(self)@[name@]
                    && d.name@ == name@ && final(self)@ == old(self)@.remove(name@),
                None => !old(self)@.contains_key(name@) && *final(self) == *old(self),
            },
    {
        let ghost pre = self.devices@;
        proof {
            lemma_map_of_dom(pre);
        }
        match self.find_index(name) {
            Some(i) => {
                proof {
                    lemma_map_of_index(pre, i as int);
                }
                let d = self.devices.remove(i);
                proof {
                    let post = self.devices@;
                    assert forall|a: int, b: int| 0 <= a < b < post.len() implies
                        (#[trigger] post[a]).name@ != (#[trigger] post[b]).name@ by {
                        let a0: int = if a < i as int { a } else { a + 1 };
                        let b0: int = if b < i as int { b } else { b + 1 };
                        assert(post[a] == pre[a0] && post[b] == pre[b0]);
                        assert(pre[a0].name@ != pre[b0].name@);
                    }
                    lemma_map_of_dom(post);
                    assert forall|n: Seq<char>| #[trigger] map_of(post).contains_key(n) implies
                        map_of(pre).remove(name@).contains_key(n) by {
                        let j = choose|j: int| 0 <= j < post.len() && (#[trigger] post[j]).name@ == n;
                        let j0: int = if j < i as int { j } else { j + 1 };
                        assert(pre[j0].name@ == n);
                        assert(has_name(pre, n));
                        assert(j0 != i as int);
                        assert(n != name@);
                    }
                    assert forall|n: Seq<char>| #[trigger] map_of(pre).remove(name@).contains_key(n) implies
                        map_of(post).contains_key(n) by {
                        let j0 = choose|j0: int| 0 <= j0 < pre.len() && (#[trigger] pre[j0]).name@ == n;
                        assert(j0 != i as int);
                        let j: int = if j0 < i as int { j0 } else { j0 - 1 };
                        assert(post[j] == pre[j0]);
                        assert(has_name(post, n));
                    }
                    assert forall|n: Seq<char>| map_of(post).contains_key(n) implies
                        #[trigger] map_of(post)[n] == map_of(pre).remove(name@)[n] by {
                        let j = choose|j: int| 0 <= j < post.len() && (#[trigger] post[j]).name@ == n;
                        lemma_map_of_index(post, j);
                        let j0: int = if j < i as int { j } else { j + 1 };
                        assert(post[j] == pre[j0]);
                        lemma_map_of_index(pre, j0);
                    }
                    assert(map_of(post) =~= map_of(pre).remove(name@));
                }
                Some(d)
            },
            None => None,
        }
    }

    /// Overwrites the IP address of the device named `name` with `new_ip`,
    /// leaving its other fields alone; errors when no such device exists,
    /// in which case nothing changes.
    pub fn edit(&mut self, name: &str, new_ip: String) -> (r: Result<(), Error>)
        requires
            old(self).wf(),
        ensures
            final(self).wf(),
            match r {
                Ok(()) => old(self)@.contains_key(name@) && final(self)@ == old(self)@.insert(
                    name@,
                    (DeviceView { ip_address: new_ip@, ..old(self)@[name@] }),
                ),
                Err(e) => e is DeviceNotFound && !old(self)@.contains_key(name@)
                    && *final(self) == *old(self),
            },
    {
        match self.remove_device(name) {
            Some(d) => {
                let ghost dv = d@;
                let updated = Device { ip_address: new_ip, ..d };
                self.add_device(updated);
                proof {
                    assert(self@ =~= old(self)@.insert(
                        name@,
                        (DeviceView { ip_address: updated.ip_address@, ..dv }),
                    ));
                }
                Ok(())
            },
            None => Err(Error::DeviceNotFound),
        }
    }

    /// One rescan attempt, with the neighbor table already parsed: looks the
    /// device up by name, resolves its stored MAC address against the table,
    /// and on a match overwrites exactly its IP address. On any failure —
    /// unknown name, or a MAC seen nowhere on the network — the registry is
    /// unchanged.
    pub fn rescan(&mut self, name: &str, neighbors: &Vec<Neighbor>) -> (r: Result<(), Error>)
        requires
            old(self).wf(),
        ensures
            final(self).wf(),
            match r {
                Ok(()) => {
                    &&& old(self)@.contains_key(name@)
                    &&& spec_resolve(old(self)@[name@].mac_address, neighbor_views(neighbors@))
                        matches Some(ip)
                    &&& final(self)@ == old(self)@.insert(
                        name@,
                        (DeviceView { ip_address: ip, ..old(self)@[name@] }),
                    )
                },
                Err(e) => *final(self) == *old(self) && match e {
                    Error::DeviceNotFound => !old(self)@.contains_key(name@),
                    Error::NotFoundOnNetwork => old(self)@.contains_key(name@) && spec_resolve(
                        old(self)@[name@].mac_address,
                        neighbor_views(neighbors@),
                    ) is None,
                    _ => false,
                },
            },
    {
        proof {
            lemma_map_of_dom(self.devices@);
        }
        let i = match self.find_index(name) {
            Some(i) => i,
            None => {
                return Err(Error::DeviceNotFound);
            },
        };
        proof {
            lemma_map_of_index(self.devices@, i as int);
        }
        match resolve(self.devices[i].mac_address.as_str(), neighbors) {
            Some(ip) => {
                match self.edit(name, ip) {
                    Ok(()) => Ok(()),
                    Err(_) => {
                        proof {
                            assert(false);
                        }
                        Err(Error::NotFoundOnNetwork)
                    },
                }
            },
            None => Err(Error::NotFoundOnNetwork),
        }
    }
}

} // verus!
