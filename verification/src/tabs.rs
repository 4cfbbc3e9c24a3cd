//! Per-tab identity bindings: each browser tab owns one virtual IP, mirrored
//! in a durable row, with the in-memory cache and the rows kept convergent by
//! every mutating operation (write-through).

use vstd::prelude::*;
use vstd::string::StringExecFns;

use crate::errors::CoreError;
use crate::generator::{IPGenerator, VirtualIP};
use crate::runtime::unix_timestamp;

verus! {

/// Lifecycle state of a tab.
#[derive(Clone, Copy, Debug, PartialEq, Eq, Structural)]
pub enum TabStatus {
    Creating,
    Active,
    Closed,
}

impl TabStatus {
    /// A short stable label for display and persistence.
    pub fn label(&self) -> (r: &'static str)
        ensures
            r@ == self.label_spec(),
    {
        match self {
            TabStatus::Creating => "Creating",
            TabStatus::Active => "Active",
            TabStatus::Closed => "Closed",
        }
    }

    pub open spec fn label_spec(self) -> Seq<char> {
        match self {
            TabStatus::Creating => "Creating"@,
            TabStatus::Active => "Active"@,
            TabStatus::Closed => "Closed"@,
        }
    }
}

/// One isolated browsing session unit and its current identity.
pub struct Tab {
    pub tab_id: u64,
    pub ip: VirtualIP,
    pub created_at: u64,
    pub last_active: u64,
    pub status: TabStatus,
}

impl Tab {
    pub open spec fn wf(self) -> bool {
        self.ip.wf()
    }

    /// A field-for-field copy.
    pub fn duplicate(&self) -> (r: Tab)
        ensures
            r == *self,
    {
        Tab {
            tab_id: self.tab_id,
            ip: self.ip.duplicate(),
            created_at: self.created_at,
            last_active: self.last_active,
            status: self.status,
        }
    }
}

/// The durable mirror of one tab, as the row store keeps it.
pub struct TabRow {
    pub tab_id: u64,
    pub country_code: String,
    pub ip: String,
    pub created_at: u64,
    pub last_active: u64,
}

impl TabRow {
    /// A field-for-field copy.
    pub fn duplicate(&self) -> (r: TabRow)
        ensures
            r == *self,
    {
        TabRow {
            tab_id: self.tab_id,
            country_code: self.country_code.clone(),
            ip: self.ip.clone(),
            created_at: self.created_at,
            last_active: self.last_active,
        }
    }
}

/// Whether a rebuilt tab carries exactly a row's identity and times.
pub open spec fn tab_matches_row(t: Tab, row: TabRow) -> bool {
    &&& t.tab_id == row.tab_id
    &&& t.ip.country_code@ == row.country_code@
    &&& t.ip.ip@ == row.ip@
    &&& t.created_at == row.created_at
    &&& t.last_active == row.last_active
    &&& t.status == TabStatus::Active
}

/// Whether a rebuilt tab mirrors one of the scanned rows.
pub open spec fn tab_mirrors_some_row(t: Tab, rows: Seq<TabRow>) -> bool {
    exists|j: int| 0 <= j < rows.len() && tab_matches_row(t, #[trigger] rows[j])
}

/// Whether some tab in the sequence carries the id.
pub open spec fn tabs_contain(s: Seq<Tab>, id: u64) -> bool {
    exists|i: int| 0 <= i < s.len() && (#[trigger] s[i]).tab_id == id
}

/// The row that mirrors a tab.
pub open spec fn row_mirrors(row: crate::tabs::TabRow, t: Tab) -> bool {
    &&& row.tab_id == t.tab_id
    &&& row.country_code@ == t.ip.country_code@
    &&& row.ip@ == t.ip.ip@
    &&& row.created_at == t.created_at
    &&& row.last_active == t.last_active
}

/// Owner of the tab lifecycle: binds a virtual IP to every tab, keeps the
/// cache and the durable rows convergent, and never blocks a caller.
pub struct TabIPManager {
    pub generator: IPGenerator,
    pub tabs: Vec<Tab>,
    pub rows: Vec<TabRow>,
    pub next_id: u64,
}

impl TabIPManager {
    /// The manager's invariant: a well-formed generator, strictly increasing
    /// tab ids below the next free id, well-formed tabs, and a durable row
    /// mirroring every cached tab.
    pub open spec fn wf(self) -> bool {
        &&& self.generator.wf()
        &&& forall|i: int, j: int|
            0 <= i < j < self.tabs@.len() ==> (#[trigger] self.tabs@[i]).tab_id < (
            #[trigger] self.tabs@[j]).tab_id
        &&& forall|i: int|
            0 <= i < self.tabs@.len() ==> (#[trigger] self.tabs@[i]).tab_id < self.next_id
        &&& forall|i: int| 0 <= i < self.tabs@.len() ==> (#[trigger] self.tabs@[i]).wf()
        &&& self.rows@.len() == self.tabs@.len()
        &&& forall|i: int|
            0 <= i < self.tabs@.len() ==> row_mirrors(#[trigger] self.rows@[i], self.tabs@[i])
    }

    /// Start with an empty cache over the given generator.
    pub fn new(generator: IPGenerator) -> (r: TabIPManager)
        requires
            generator.wf(),
        ensures
            r.wf(),
            r.tabs@.len() == 0,
            r.generator == generator,
    {
        TabIPManager { generator, tabs: Vec::new(), rows: Vec::new(), next_id: 1 }
    }

    /// Create a tab bound to a fresh address for `country_code`.
    ///
    /// On success the new tab carries a fresh id, its address lies in one of
    /// the country's registered ranges, and both the cache and the durable
    /// rows grew by exactly its entry. Fails with `InvalidCountry` when no
    /// range is registered for the code, and with `PersistenceError` in the
    /// (practically unreachable) case that the id space is exhausted.
    pub fn create_tab(&mut self, country_code: &str) -> (r: Result<Tab, CoreError>)
        requires
            old(self).wf(),
        ensures
            final(self).wf(),
            final(self).generator.ranges == old(self).generator.ranges,
            r is Ok <==> old(self).generator.spec_has_country(country_code@) && old(self).next_id
                != 0xFFFFFFFFFFFFFFFFu64,
            match r {
                Ok(t) => {
                    &&& t.tab_id == old(self).next_id
                    &&& !tabs_contain(old(self).tabs@, t.tab_id)
                    &&& t.wf()
                    &&& t.status == TabStatus::Active
                    &&& t.ip.country_code@ == country_code@
                    &&& exists|i: int|
                        0 <= i < old(self).generator.ranges@.len() && (#[trigger] old(
                            self,
                        ).generator.ranges@[i]).country_code@ == country_code@ && old(
                            self,
                        ).generator.ranges@[i].usable(t.ip.addr)
                    &&& final(self).tabs@ == old(self).tabs@.push(t)
                    &&& final(self).next_id == old(self).next_id + 1
                },
                Err(e) => {
                    &&& final(self).tabs@ == old(self).tabs@
                    &&& final(self).rows@ == old(self).rows@
                    &&& if old(self).next_id == 0xFFFFFFFFFFFFFFFFu64 {
                        e == CoreError::PersistenceError
                    } else {
                        e == CoreError::InvalidCountry && !old(self).generator.spec_has_country(
                            country_code@,
                        )
                    }
                },
            },
    {
        if self.next_id == 0xFFFFFFFFFFFFFFFFu64 {
            return Err(CoreError::PersistenceError);
        }
        let v = match self.generator.generate(country_code) {
            Ok(v) => v,
            Err(e) => {
                return Err(e);
            },
        };
        let now = unix_timestamp();
        let id = self.next_id;
        let tab = Tab {
            tab_id: id,
            ip: v,
            created_at: now,
            last_active: now,
            status: TabStatus::Active,
        };
        let row = TabRow {
            tab_id: id,
            country_code: tab.ip.country_code.clone(),
            ip: tab.ip.ip.clone(),
            created_at: now,
            last_active: now,
        };
        // The durable write happens first; the cache is only updated after
        // it succeeded, so the two views never diverge.
        self.rows.push(row);
        self.tabs.push(tab.duplicate());
        self.next_id = id + 1;
        Ok(tab)
    }

    /// Look a tab up in the cache; no storage access.
    pub fn get_tab(&self, tab_id: u64) -> (r: Option<Tab>)
        requires
            self.wf(),
        ensures
            match r {
                Some(t) => t.tab_id == tab_id && exists|i: int|
                    0 <= i < self.tabs@.len() && #[trigger] self.tabs@[i] == t,
                None => !tabs_contain(self.tabs@, tab_id),
            },
    {
        let mut i: usize = 0;
        while i < self.tabs.len()
            invariant
                i <= self.tabs@.len(),
                forall|j: int| 0 <= j < i ==> (#[trigger] self.tabs@[j]).tab_id != tab_id,
            decreases self.tabs@.len() - i,
        {
            if self.tabs[i].tab_id == tab_id {
                return Some(self.tabs[i].duplicate());
            }
            i = i + 1;
        }
        None
    }

    /// A snapshot of every cached tab, in creation order.
    pub fn get_all_tabs(&self) -> (r: Vec<Tab>)
        ensures
            r@ == self.tabs@,
    {
        let mut out: Vec<Tab> = Vec::new();
        let mut i: usize = 0;
        while i < self.tabs.len()
            invariant
                i <= self.tabs@.len(),
                out@ == self.tabs@.subrange(0, i as int),
            decreases self.tabs@.len() - i,
        {
            out.push(self.tabs[i].duplicate());
            proof {
                assert(out@ =~= self.tabs@.subrange(0, i as int + 1));
            }
            i = i + 1;
        }
        proof {
            assert(out@ =~= self.tabs@);
        }
        out
    }

    /// Re-draw the tab's address, optionally for another country.
    ///
    /// Generation is retried a bounded number of times until the new address
    /// differs from the current one; after the bound a repeat is accepted
    /// rather than blocking. The tab keeps its id, creation time and status;
    /// cache and durable row are updated together.
    pub fn rotate_ip(&mut self, tab_id: u64, new_country: Option<&str>) -> (r: Result<
        VirtualIP,
        CoreError,
    >)
        requires
            old(self).wf(),
        ensures
            final(self).wf(),
            final(self).generator.ranges == old(self).generator.ranges,
            final(self).next_id == old(self).next_id,
            // success is owed whenever the tab exists and its target country
            // has registered ranges
            forall|i: int|
                0 <= i < old(self).tabs@.len() && (#[trigger] old(self).tabs@[i]).tab_id == tab_id
                    ==> (r is Ok <==> old(self).generator.spec_has_country(
                    match new_country {
                        Some(c) => c@,
                        None => old(self).tabs@[i].ip.country_code@,
                    },
                )),
            match r {
                Ok(v) => exists|i: int|
                    {
                        &&& 0 <= i < old(self).tabs@.len()
                        &&& (#[trigger] old(self).tabs@[i]).tab_id == tab_id
                        &&& v.wf()
                        &&& v.country_code@ == (match new_country {
                            Some(c) => c@,
                            None => old(self).tabs@[i].ip.country_code@,
                        })
                        &&& exists|k: int|
                            0 <= k < old(self).generator.ranges@.len() && (#[trigger] old(
                                self,
                            ).generator.ranges@[k]).country_code@ == v.country_code@ && old(
                                self,
                            ).generator.ranges@[k].usable(v.addr)
                        &&& final(self).tabs@.len() == old(self).tabs@.len()
                        &&& final(self).tabs@[i].ip == v
                        &&& final(self).tabs@[i].tab_id == tab_id
                        &&& final(self).tabs@[i].created_at == old(self).tabs@[i].created_at
                        &&& final(self).tabs@[i].status == old(self).tabs@[i].status
                        &&& forall|j: int|
                            0 <= j < old(self).tabs@.len() && j != i ==> final(self).tabs@[j] == (
                            #[trigger] old(self).tabs@[j])
                    },
                Err(e) => {
                    &&& final(self).tabs@ == old(self).tabs@
                    &&& final(self).rows@ == old(self).rows@
                    &&& (e == CoreError::TabNotFound <==> !tabs_contain(old(self).tabs@, tab_id))
                },
            },
    {
        let n = self.tabs.len();
        let mut i: usize = 0;
        while i < n
            invariant
                old(self).wf(),
                self.generator == old(self).generator,
                self.tabs == old(self).tabs,
                self.rows == old(self).rows,
                self.next_id == old(self).next_id,
                n == self.tabs@.len(),
                i <= n,
                forall|j: int| 0 <= j < i ==> (#[trigger] self.tabs@[j]).tab_id != tab_id,
            decreases n - i,
        {
            if self.tabs[i].tab_id == tab_id {
                let cur_addr = self.tabs[i].ip.addr;
                let code: String = match new_country {
                    Some(c) => c.to_owned(),
                    None => self.tabs[i].ip.country_code.clone(),
                };
                let mut v = match self.generator.generate(code.as_str()) {
                    Ok(v) => v,
                    Err(e) => {
                        return Err(e);
                    },
                };
                let mut tries: u32 = 1;
                while tries < 3 && v.addr == cur_addr
                    invariant
                        old(self).wf(),
                        self.wf(),
                        self.tabs == old(self).tabs,
                        self.rows == old(self).rows,
                        self.next_id == old(self).next_id,
                        self.generator.ranges == old(self).generator.ranges,
                        self.generator.countries == old(self).generator.countries,
                        v.wf(),
                        v.country_code@ == code@,
                        exists|k: int|
                            0 <= k < self.generator.ranges@.len() && (#[trigger] self
                                .generator
                                .ranges@[k]).country_code@ == code@ && self.generator.ranges@[
                                k].usable(v.addr),
                        tries <= 3,
                    decreases 3 - tries,
                {
                    let again = match self.generator.generate(code.as_str()) {
                        Ok(v2) => v2,
                        Err(_) => {
                            proof {
                                assert(false);
                            }
                            return Err(CoreError::InvalidCountry);
                        },
                    };
                    v = again;
                    tries = tries + 1;
                }
                let now = unix_timestamp();
                let old_tab = self.tabs.remove(i);
                let new_tab = Tab {
                    tab_id: old_tab.tab_id,
                    ip: v.duplicate(),
                    created_at: old_tab.created_at,
                    last_active: now,
                    status: old_tab.status,
                };
                self.tabs.insert(i, new_tab);
                let old_row = self.rows.remove(i);
                let new_row = TabRow {
                    tab_id: old_row.tab_id,
                    country_code: v.country_code.clone(),
                    ip: v.ip.clone(),
                    created_at: old_row.created_at,
                    last_active: now,
                };
                self.rows.insert(i, new_row);
                proof {
                    assert(self.tabs@ =~= old(self).tabs@.update(i as int, new_tab));
                    assert(self.rows@ =~= old(self).rows@.update(i as int, new_row));
                    assert(row_mirrors(new_row, new_tab));
                    assert forall|a: int, b: int|
                        0 <= a < b < self.tabs@.len() implies (#[trigger] self.tabs@[a]).tab_id < (
                    #[trigger] self.tabs@[b]).tab_id by {
                        assert(self.tabs@[a].tab_id == old(self).tabs@[a].tab_id);
                        assert(self.tabs@[b].tab_id == old(self).tabs@[b].tab_id);
                    }
                }
                return Ok(v);
            }
            i = i + 1;
        }
        Err(CoreError::TabNotFound)
    }

    /// Drop a tab from the cache and delete its durable row.
    ///
    /// Idempotent: closing an unknown or already-closed id succeeds and
    /// leaves everything unchanged.
    pub fn close_tab(&mut self, tab_id: u64)
        requires
            old(self).wf(),
        ensures
            final(self).wf(),
            final(self).next_id == old(self).next_id,
            final(self).generator.ranges == old(self).generator.ranges,
            !tabs_contain(final(self).tabs@, tab_id),
            (!tabs_contain(old(self).tabs@, tab_id) ==> final(self).tabs@ == old(self).tabs@
                && final(self).rows@ == old(self).rows@),
            (tabs_contain(old(self).tabs@, tab_id) ==> exists|i: int|
                {
                    &&& 0 <= i < old(self).tabs@.len()
                    &&& (#[trigger] old(self).tabs@[i]).tab_id == tab_id
                    &&& final(self).tabs@ == old(self).tabs@.remove(i)
                    &&& final(self).rows@ == old(self).rows@.remove(i)
                }),
    {
        let n = self.tabs.len();
        let mut i: usize = 0;
        while i < n
            invariant
                old(self).wf(),
                self.generator == old(self).generator,
                self.tabs == old(self).tabs,
                self.rows == old(self).rows,
                self.next_id == old(self).next_id,
                n == self.tabs@.len(),
                i <= n,
                forall|j: int| 0 <= j < i ==> (#[trigger] self.tabs@[j]).tab_id != tab_id,
            decreases n - i,
        {
            if self.tabs[i].tab_id == tab_id {
                self.tabs.remove(i);
                self.rows.remove(i);
                proof {
                    let ghost t0 = old(self).tabs@;
                    let ghost r0 = old(self).rows@;
                    t0.remove_ensures(i as int);
                    r0.remove_ensures(i as int);
                    assert(t0[i as int].tab_id == tab_id);
                    assert forall|j: int|
                        0 <= j < self.tabs@.len() implies (#[trigger] self.tabs@[j]).tab_id
                        != tab_id by {
                        if j < i {
                            assert(self.tabs@[j] == t0[j]);
                        } else {
                            assert(self.tabs@[j] == t0[j + 1]);
                            assert(t0[i as int].tab_id < t0[j + 1].tab_id);
                        }
                    }
                    assert forall|a: int, b: int|
                        0 <= a < b < self.tabs@.len() implies (#[trigger] self.tabs@[a]).tab_id < (
                    #[trigger] self.tabs@[b]).tab_id by {
                        let a0 = if a < i { a } else { a + 1 };
                        let b0 = if b < i { b } else { b + 1 };
                        assert(self.tabs@[a] == t0[a0]);
                        assert(self.tabs@[b] == t0[b0]);
                    }
                    assert forall|j: int|
                        0 <= j < self.tabs@.len() implies row_mirrors(
                        #[trigger] self.rows@[j],
                        self.tabs@[j],
                    ) by {
                        let j0 = if j < i { j } else { j + 1 };
                        assert(self.tabs@[j] == t0[j0]);
                        assert(self.rows@[j] == r0[j0]);
                    }
                }
                return ;
            }
            i = i + 1;
        }
    }


    /// Rebuild a manager from the durable rows scanned at startup, so a
    /// restarted process serves `get_tab` from memory again.
    ///
    /// A row is adopted when its address text is the canonical rendering of
    /// an address and its id continues the strictly increasing id order;
    /// anything else (a corrupted row) is dropped rather than failing
    /// startup. Every adopted tab mirrors its row field for field.
    pub fn from_rows(generator: IPGenerator, rows: Vec<TabRow>) -> (r: TabIPManager)
        requires
            generator.wf(),
        ensures
            r.wf(),
            r.generator == generator,
            r.tabs@.len() <= rows@.len(),
            forall|i: int|
                0 <= i < r.tabs@.len() ==> tab_mirrors_some_row(#[trigger] r.tabs@[i], rows@),
    {
        let mut m = TabIPManager { generator, tabs: Vec::new(), rows: Vec::new(), next_id: 1 };
        let n = rows.len();
        let mut j: usize = 0;
        while j < n
            invariant
                m.wf(),
                m.generator == generator,
                n == rows@.len(),
                j <= n,
                m.tabs@.len() <= j,
                forall|i: int|
                    0 <= i < m.tabs@.len() ==> tab_mirrors_some_row(#[trigger] m.tabs@[i], rows@),
            decreases n - j,
        {
            let ghost tpre = m.tabs@;
            let row = &rows[j];
            let adopt = row.tab_id >= m.next_id && row.tab_id < 0xFFFFFFFFFFFFFFFFu64;
            if adopt {
                match crate::ipfmt::parse_ipv4(row.ip.as_str()) {
                    Some(addr) => {
                        let ip = VirtualIP {
                            ip: crate::ipfmt::format_ipv4(addr),
                            addr,
                            country_code: row.country_code.clone(),
                        };
                        let tab = Tab {
                            tab_id: row.tab_id,
                            ip,
                            created_at: row.created_at,
                            last_active: row.last_active,
                            status: TabStatus::Active,
                        };
                        m.rows.push(row.duplicate());
                        m.tabs.push(tab);
                        m.next_id = row.tab_id + 1;
                        proof {
                            assert(m.tabs@.last().ip.ip@ == rows@[j as int].ip@);
                            assert(tab_matches_row(m.tabs@.last(), rows@[j as int]));
                            assert forall|i: int| 0 <= i < m.tabs@.len() implies
                                tab_mirrors_some_row(#[trigger] m.tabs@[i], rows@) by {
                                if i < m.tabs@.len() - 1 {
                                    assert(m.tabs@[i] == tpre[i]);
                                } else {
                                    assert(tab_matches_row(m.tabs@[i], rows@[j as int]));
                                }
                            }
                        }
                    },
                    None => {},
                }
            }
            j = j + 1;
        }
        m
    }

    /// Any two distinct cached tabs carry distinct ids.
    pub proof fn lemma_tab_ids_distinct(self, i: int, j: int)
        requires
            self.wf(),
            0 <= i < self.tabs@.len(),
            0 <= j < self.tabs@.len(),
            i != j,
        ensures
            self.tabs@[i].tab_id != self.tabs@[j].tab_id,
    {
    }
}

} // verus!
