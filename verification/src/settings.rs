//! The preferences that outlive a session, and where files are kept.

use crate::profile::known_profile;
use vstd::prelude::*;

verus! {

/// The preferences that are kept.
#[derive(Clone, Debug)]
pub struct Settings {
    pub profile: String,
    pub charge_limit: u8,
    pub cpu_limit: u8,
    pub brightness_limit: u8,
    pub background_saving: bool,
    pub wifi_saving: bool,
    pub eco_apps: Vec<String>,
}

/// The texts of `v`.
pub open spec fn texts(v: Seq<String>) -> Seq<Seq<char>> {
    v.map_values(|s: String| s@)
}

impl Default for Settings {
    /// The preferences of somebody who has set none.
    fn default() -> (r: Settings)
        ensures
            r.profile@ == "balanced"@,
            r.charge_limit == 80,
            r.cpu_limit == 75,
            r.brightness_limit == 80,
            r.background_saving,
            r.wifi_saving,
            r.eco_apps@ == Seq::<String>::empty(),
    {
        Settings {
            profile: "balanced".to_owned(),
            charge_limit: 80,
            cpu_limit: 75,
            brightness_limit: 80,
            background_saving: true,
            wifi_saving: true,
            eco_apps: Vec::new(),
        }
    }
}

/// `names` without `name`.
pub open spec fn without(names: Seq<Seq<char>>, name: Seq<char>) -> Seq<Seq<char>>
    decreases names.len(),
{
    if names.len() == 0 {
        Seq::empty()
    } else if names.last() == name {
        without(names.drop_last(), name)
    } else {
        without(names.drop_last(), name).push(names.last())
    }
}

/// `names` after `name` was switched into or out of eco mode.
pub open spec fn switched(names: Seq<Seq<char>>, name: Seq<char>, eco: bool) -> Seq<Seq<char>> {
    if eco {
        if names.contains(name) {
            names
        } else {
            names.push(name)
        }
    } else {
        without(names, name)
    }
}

impl Settings {
    /// Whether everything but the list of eco applications is the same.
    pub open spec fn agrees_but_for_eco(self, other: Settings) -> bool {
        &&& self.profile == other.profile
        &&& self.agrees_on_limits(other)
    }

    /// Whether the limits and switches are the same.
    pub open spec fn agrees_on_limits(self, other: Settings) -> bool {
        &&& self.charge_limit == other.charge_limit
        &&& self.cpu_limit == other.cpu_limit
        &&& self.brightness_limit == other.brightness_limit
        &&& self.background_saving == other.background_saving
        &&& self.wifi_saving == other.wifi_saving
    }

    /// Takes up the profile that the system runs, if it is a preset.
    pub fn adopt_profile(&mut self, system: String)
        ensures
            final(self).profile@ == if crate::profile::is_profile(system@) {
                system@
            } else {
                old(self).profile@
            },
            final(self).agrees_on_limits(*old(self)),
            final(self).eco_apps == old(self).eco_apps,
    {
        if known_profile(system.as_str()) {
            self.profile = system;
        }
    }

    /// Whether an application is in eco mode.
    pub fn is_eco(&self, name: &String) -> (r: bool)
        ensures
            r == texts(self.eco_apps@).contains(name@),
    {
        let ghost names = texts(self.eco_apps@);
        let mut i: usize = 0;
        while i < self.eco_apps.len()
            invariant
                i <= self.eco_apps.len(),
                names == texts(self.eco_apps@),
                forall|j: int| 0 <= j < i ==> #[trigger] names[j] != name@,
            decreases self.eco_apps.len() - i,
        {
            assert(names[i as int] == self.eco_apps@[i as int]@);
            if self.eco_apps[i] == *name {
                return true;
            }
            i += 1;
        }
        false
    }

    /// Switches an application into or out of eco mode.
    pub fn set_eco(&mut self, name: &String, eco: bool)
        ensures
            texts(final(self).eco_apps@) == switched(texts(old(self).eco_apps@), name@, eco),
            final(self).agrees_but_for_eco(*old(self)),
    {
        if eco {
            if !self.is_eco(name) {
                self.eco_apps.push(name.clone());
                assert(texts(self.eco_apps@) =~= texts(old(self).eco_apps@).push(name@));
            }
        } else {
            let ghost names = texts(self.eco_apps@);
            let mut left: Vec<String> = Vec::new();
            let mut i: usize = 0;
            assert(texts(left@) =~= without(names.take(0), name@));
            while i < self.eco_apps.len()
                invariant
                    i <= self.eco_apps.len(),
                    *self == *old(self),
                    names == texts(self.eco_apps@),
                    texts(left@) == without(names.take(i as int), name@),
                decreases self.eco_apps.len() - i,
            {
                let ghost before = left@;
                assert(names.take(i + 1).drop_last() =~= names.take(i as int));
                assert(names.take(i + 1).last() == self.eco_apps@[i as int]@);
                if !(self.eco_apps[i] == *name) {
                    left.push(self.eco_apps[i].clone());
                    assert(texts(left@) =~= texts(before).push(self.eco_apps@[i as int]@));
                }
                i += 1;
            }
            assert(names.take(names.len() as int) =~= names);
            self.eco_apps = left;
        }
    }
}

proof fn lemma_without(names: Seq<Seq<char>>, name: Seq<char>)
    ensures
        !without(names, name).contains(name),
        forall|x: Seq<char>|
            x != name ==> (#[trigger] without(names, name).contains(x) <==> names.contains(x)),
    decreases names.len(),
{
    if names.len() > 0 {
        let rest = names.drop_last();
        let all = without(names, name);
        let before = without(rest, name);
        lemma_without(rest, name);
        assert(names =~= rest.push(names.last()));
        assert forall|x: Seq<char>| x != name implies (#[trigger] all.contains(x)
            <==> names.contains(x)) by {
            if all.contains(x) {
                let k = choose|k: int| 0 <= k < all.len() && all[k] == x;
                if k < before.len() {
                    assert(before[k] == x);
                    assert(before.contains(x));
                    let w = choose|w: int| 0 <= w < rest.len() && rest[w] == x;
                    assert(names[w] == x);
                } else {
                    assert(names[names.len() - 1] == x);
                }
            }
            if names.contains(x) {
                let k = choose|k: int| 0 <= k < names.len() && names[k] == x;
                if k < rest.len() {
                    assert(rest[k] == x);
                    assert(before.contains(x));
                    let w = choose|w: int| 0 <= w < before.len() && before[w] == x;
                    assert(all[w] == x);
                } else {
                    assert(all[all.len() - 1] == x);
                }
            }
        }
        if all.contains(name) {
            let k = choose|k: int| 0 <= k < all.len() && all[k] == name;
            if k < before.len() {
                assert(before[k] == name);
            }
        }
    }
}

/// Switching an application into eco mode puts it on the list, switching it
/// out takes it off, and no other application is touched.
pub proof fn eco_switches_one_application(names: Seq<Seq<char>>, name: Seq<char>, eco: bool)
    ensures
        switched(names, name, eco).contains(name) == eco,
        forall|x: Seq<char>|
            x != name ==> (#[trigger] switched(names, name, eco).contains(x) <==> names.contains(
                x,
            )),
        switched(switched(names, name, eco), name, eco) == switched(names, name, eco),
{
    if eco {
        if !names.contains(name) {
            let all = names.push(name);
            assert(all[names.len() as int] == name);
            assert forall|x: Seq<char>| x != name implies (#[trigger] all.contains(x)
                <==> names.contains(x)) by {
                if names.contains(x) {
                    let k = choose|k: int| 0 <= k < names.len() && names[k] == x;
                    assert(all[k] == x);
                }
                if all.contains(x) {
                    let k = choose|k: int| 0 <= k < all.len() && all[k] == x;
                    assert(names[k] == x);
                }
            }
        }
    } else {
        lemma_without(names, name);
        lemma_without_absent(without(names, name), name);
    }
}

proof fn lemma_without_absent(names: Seq<Seq<char>>, name: Seq<char>)
    requires
        !names.contains(name),
    ensures
        without(names, name) == names,
    decreases names.len(),
{
    if names.len() > 0 {
        let rest = names.drop_last();
        assert(names[names.len() - 1] != name);
        assert forall|k: int| 0 <= k < rest.len() implies rest[k] != name by {
            assert(names[k] != name);
        }
        lemma_without_absent(rest, name);
        assert(names =~= rest.push(names.last()));
    }
}

/// Switching in and straight out again leaves a list that did not hold the
/// application as it was.
pub proof fn eco_is_undone(names: Seq<Seq<char>>, name: Seq<char>)
    requires
        !names.contains(name),
    ensures
        switched(switched(names, name, true), name, false) == names,
{
    lemma_without_absent(names, name);
    assert(names.push(name).drop_last() =~= names);
}

/// Which directory the program's files are kept below.
#[derive(Clone, Copy, Debug, PartialEq, Eq, Structural)]
pub enum BaseDirectory {
    /// The one that the XDG variable names.
    Xdg,
    /// The customary one below the home directory.
    Home,
    /// The working directory.
    Here,
}

/// Which directory the program's files are kept below, given which of the
/// variables are set.
pub fn base_directory(xdg_set: bool, home_set: bool) -> (r: BaseDirectory)
    ensures
        r == if xdg_set {
            BaseDirectory::Xdg
        } else if home_set {
            BaseDirectory::Home
        } else {
            BaseDirectory::Here
        },
{
    if xdg_set {
        BaseDirectory::Xdg
    } else if home_set {
        BaseDirectory::Home
    } else {
        BaseDirectory::Here
    }
}

} // verus!
