//! Round-robin selection over a set of proxies, skipping the ones marked
//! bad and starting over with a clean slate once every one of them is.

use vstd::prelude::*;

verus! {

/// A proxy list with a cursor; the flag says the proxy is still good.
pub struct ProxyRoundRobin {
    proxies: Vec<(String, bool)>,
    current: usize,
}

/// Mathematical value of the rotation: names, flags, cursor.
pub struct SpecProxies {
    pub proxies: Seq<(Seq<char>, bool)>,
    pub current: int,
}

impl View for ProxyRoundRobin {
    type V = SpecProxies;

    closed spec fn view(&self) -> SpecProxies {
        SpecProxies {
            proxies: self.proxies@.map_values(|p: (String, bool)| (p.0@, p.1)),
            current: self.current as int,
        }
    }
}

/// The first good index reached from `pos`, probing `steps` slots and
/// wrapping around; -1 when every probed slot is bad.
pub open spec fn first_good_from(flags: Seq<(Seq<char>, bool)>, pos: int, steps: int) -> int
    decreases steps,
{
    if steps <= 0 || !(0 <= pos < flags.len()) {
        -1
    } else if flags[pos].1 {
        pos
    } else {
        first_good_from(flags, (pos + 1) % (flags.len() as int), steps - 1)
    }
}

impl SpecProxies {
    /// The cursor stays inside the list whenever there is one.
    pub open spec fn wf(self) -> bool {
        self.proxies.len() == 0 || 0 <= self.current < self.proxies.len()
    }
}

impl ProxyRoundRobin {
    /// A rotation over these proxies, all of them assumed good.
    pub fn new(proxies: Vec<String>) -> (r: ProxyRoundRobin)
        ensures
            r@.proxies.len() == proxies@.len(),
            forall|i: int|
                0 <= i < proxies@.len() ==> r@.proxies[i] == (proxies@[i]@, true),
            r@.current == 0,
            r@.wf(),
    {
        let mut v: Vec<(String, bool)> = Vec::new();
        let mut i: usize = 0;
        while i < proxies.len()
            invariant
                0 <= i <= proxies@.len(),
                v@.len() == i,
                forall|j: int|
                    0 <= j < i ==> v@.map_values(|p: (String, bool)| (p.0@, p.1))[j] == (
                    proxies@[j]@, true),
            decreases proxies@.len() - i,
        {
            v.push((proxies[i].clone(), true));
            i = i + 1;
        }
        ProxyRoundRobin { proxies: v, current: 0 }
    }

    /// Hands out the next good proxy after the cursor, wrapping around;
    /// when every proxy has gone bad, clears all the marks and hands out
    /// the slot the search started at. `None` only with no proxies at all.
    pub fn ask_proxy(&mut self) -> (r: Option<(String, usize)>)
        requires
            old(self)@.wf(),
        ensures
            final(self)@.wf(),
            match r {
                None => old(self)@.proxies.len() == 0 && final(self)@ == old(self)@,
                Some(pick) => {
                    let n = old(self)@.proxies.len() as int;
                    let start = (old(self)@.current + 1) % n;
                    let found = first_good_from(old(self)@.proxies, start, n);
                    &&& n > 0
                    &&& pick.1 < n
                    &&& final(self)@.current == pick.1 as int
                    &&& final(self)@.proxies.len() == n
                    &&& pick.0@ == final(self)@.proxies[pick.1 as int].0
                    &&& if found >= 0 {
                        pick.1 as int == found && final(self)@.proxies == old(self)@.proxies
                    } else {
                        pick.1 as int == start && forall|i: int|
                            0 <= i < n ==> final(self)@.proxies[i] == (
                            old(self)@.proxies[i].0,
                            true,
                        )
                    }
                },
            },
    {
        let ghost pre = self@;
        if self.proxies.len() == 0 {
            return None;
        }
        let n = self.proxies.len();
        self.current = (self.current + 1) % n;
        let initial = self.current;
        let ghost start = initial as int;
        let mut steps: usize = 0;
        while steps < n && !self.proxies[self.current].1
            invariant
                0 < n == self.proxies@.len(),
                pre.proxies == self@.proxies,
                self.current < n,
                0 <= steps <= n,
                0 <= start < n,
                initial == start,
                first_good_from(pre.proxies, start, n as int) == first_good_from(
                    pre.proxies,
                    self.current as int,
                    n as int - steps as int,
                ),
            decreases n - steps,
        {
            proof {
                assert(self@.proxies[self.current as int].1 == self.proxies@[self.current as int].1);
                assert(first_good_from(
                    pre.proxies,
                    self.current as int,
                    n as int - steps as int,
                ) == first_good_from(
                    pre.proxies,
                    (self.current as int + 1) % (n as int),
                    n as int - steps as int - 1,
                ));
            }
            self.current = (self.current + 1) % n;
            steps = steps + 1;
        }
        if steps == n {
            // every proxy is bad: start over with a clean slate
            proof {
                assert(first_good_from(pre.proxies, start, n as int) == -1);
            }
            self.current = initial;
            let mut i: usize = 0;
            while i < n
                invariant
                    0 < n == self.proxies@.len(),
                    self.current == initial < n,
                    0 <= i <= n,
                    forall|j: int|
                        0 <= j < i ==> self@.proxies[j] == (pre.proxies[j].0, true),
                    forall|j: int| i <= j < n ==> self@.proxies[j] == pre.proxies[j],
                decreases n - i,
            {
                let ghost before = self@.proxies;
                let name = self.proxies[i].0.clone();
                self.proxies[i] = (name, true);
                proof {
                    assert(self@.proxies =~= before.update(
                        i as int,
                        (before[i as int].0, true),
                    ));
                }
                i = i + 1;
            }
            let p = self.proxies[initial].0.clone();
            return Some((p, initial));
        }
        proof {
            assert(self@.proxies[self.current as int].1 == self.proxies@[self.current as int].1);
            assert(self@.proxies[self.current as int].1);
            assert(first_good_from(pre.proxies, self.current as int, n as int - steps as int)
                == self.current as int);
        }
        let p = self.proxies[self.current].0.clone();
        Some((p, self.current))
    }

    /// Marks one proxy bad, so the rotation skips it from now on.
    pub fn mark_bad_proxy(&mut self, idx: usize)
        requires
            idx < old(self)@.proxies.len(),
        ensures
            final(self)@.current == old(self)@.current,
            final(self)@.proxies == old(self)@.proxies.update(
                idx as int,
                (old(self)@.proxies[idx as int].0, false),
            ),
    {
        let name = self.proxies[idx].0.clone();
        self.proxies[idx] = (name, false);
        proof {
            assert(self@.proxies =~= old(self)@.proxies.update(
                idx as int,
                (old(self)@.proxies[idx as int].0, false),
            ));
        }
    }
}

} // verus!
