//! Application settings: what they hold, their defaults, how a stored
//! settings file (possibly written by an older version) becomes settings,
//! and what is stored back. Reading and writing the file stand outside.
use vstd::prelude::*;

verus! {

broadcast use vstd::std_specs::vec::group_vec_axioms;

/// Theme of the interface. `System` follows the system preference.
#[derive(Debug, Clone, Copy, PartialEq, Eq, Structural)]
pub enum Theme {
    Light,
    Dark,
    System,
}

impl Default for Theme {
    fn default() -> (t: Theme)
        ensures
            t == Theme::System,
    {
        Theme::System
    }
}

// ---------------------------------------------------------------- shortcuts

/// The map that a list of (action, shortcut) pairs describes; a later pair
/// wins over an earlier one with the same action.
pub open spec fn entries_map(s: Seq<(String, String)>) -> Map<Seq<char>, Seq<char>>
    decreases s.len(),
{
    if s.len() == 0 {
        Map::empty()
    } else {
        entries_map(s.drop_last()).insert(s.last().0@, s.last().1@)
    }
}

/// No action occurs twice.
pub open spec fn distinct_keys(s: Seq<(String, String)>) -> bool {
    forall|i: int, j: int| 0 <= i < j < s.len() ==> (#[trigger] s[i]).0@ != (#[trigger] s[j]).0@
}

proof fn lemma_entries_map_absent(s: Seq<(String, String)>, k: Seq<char>)
    requires
        forall|i: int| 0 <= i < s.len() ==> (#[trigger] s[i]).0@ != k,
    ensures
        !entries_map(s).contains_key(k),
    decreases s.len(),
{
    if s.len() > 0 {
        let p = s.drop_last();
        assert forall|i: int| 0 <= i < p.len() implies (#[trigger] p[i]).0@ != k by {
            assert(p[i] == s[i]);
        }
        lemma_entries_map_absent(p, k);
        assert(s.last() == s[s.len() - 1]);
    }
}

proof fn lemma_entries_map_at(s: Seq<(String, String)>, i: int)
    requires
        distinct_keys(s),
        0 <= i < s.len(),
    ensures
        entries_map(s).contains_key(s[i].0@),
        entries_map(s)[s[i].0@] == s[i].1@,
    decreases s.len(),
{
    let p = s.drop_last();
    if i < s.len() - 1 {
        assert(p[i] == s[i]);
        assert(distinct_keys(p)) by {
            assert forall|a: int, b: int| 0 <= a < b < p.len() implies (#[trigger] p[a]).0@ != (#[trigger] p[b]).0@ by {
                assert(p[a] == s[a] && p[b] == s[b]);
            }
        }
        lemma_entries_map_at(p, i);
        assert(s[i].0@ != s[s.len() - 1].0@);
    }
}

proof fn lemma_entries_map_update(s: Seq<(String, String)>, i: int, e: (String, String))
    requires
        distinct_keys(s),
        0 <= i < s.len(),
        s[i].0@ == e.0@,
    ensures
        entries_map(s.update(i, e)) == entries_map(s).insert(e.0@, e.1@),
    decreases s.len(),
{
    let t = s.update(i, e);
    let p = s.drop_last();
    if i == s.len() - 1 {
        assert(t.drop_last() =~= p);
        assert(t.last() == e);
        assert(entries_map(s).insert(e.0@, e.1@) =~= entries_map(p).insert(e.0@, e.1@));
    } else {
        assert(t.drop_last() =~= p.update(i, e));
        assert(distinct_keys(p)) by {
            assert forall|a: int, b: int| 0 <= a < b < p.len() implies (#[trigger] p[a]).0@ != (#[trigger] p[b]).0@ by {
                assert(p[a] == s[a] && p[b] == s[b]);
            }
        }
        assert(p[i] == s[i]);
        lemma_entries_map_update(p, i, e);
        assert(t.last() == s.last());
        assert(s.last() == s[s.len() - 1]);
        assert(s[i].0@ != s[s.len() - 1].0@);
        assert(entries_map(t) =~= entries_map(s).insert(e.0@, e.1@));
    }
}

/// Shortcuts of the interface: for each action (a stable id such as
/// `command_palette`) its key combination (such as `Mod+K`).
#[derive(Debug)]
pub struct Shortcuts {
    entries: Vec<(String, String)>,
}

impl View for Shortcuts {
    type V = Map<Seq<char>, Seq<char>>;

    closed spec fn view(&self) -> Map<Seq<char>, Seq<char>> {
        entries_map(self.entries@)
    }
}

impl Clone for Shortcuts {
    fn clone(&self) -> (r: Self)
        ensures
            r@ == self@,
    {
        proof {
            use_type_invariant(self);
        }
        let mut entries: Vec<(String, String)> = Vec::new();
        let n = self.entries.len();
        for i in 0..n
            invariant
                n == self.entries@.len(),
                entries@ == self.entries@.take(i as int),
        {
            let action = self.entries[i].0.clone();
            let shortcut = self.entries[i].1.clone();
            entries.push((action, shortcut));
            proof {
                assert(self.entries@.take(i + 1) == self.entries@.take(i as int).push(self.entries@[i as int]));
            }
        }
        proof {
            assert(self.entries@.take(n as int) == self.entries@);
        }
        Shortcuts { entries }
    }
}

impl Shortcuts {
    #[verifier::type_invariant]
    spec fn no_duplicate_action(self) -> bool {
        distinct_keys(self.entries@)
    }

    /// No shortcut at all.
    pub fn new() -> (s: Shortcuts)
        ensures
            s@ == Map::<Seq<char>, Seq<char>>::empty(),
    {
        Shortcuts { entries: Vec::new() }
    }

    fn position(&self, action_id: &String) -> (r: Option<usize>)
        ensures
            match r {
                Some(i) => i < self.entries@.len() && self.entries@[i as int].0@ == action_id@,
                None => forall|i: int| 0 <= i < self.entries@.len() ==> (#[trigger] self.entries@[i]).0@ != action_id@,
            },
    {
        let mut i: usize = 0;
        while i < self.entries.len()
            invariant
                i <= self.entries@.len(),
                forall|j: int| 0 <= j < i ==> (#[trigger] self.entries@[j]).0@ != action_id@,
            decreases self.entries@.len() - i,
        {
            if self.entries[i].0 == *action_id {
                return Some(i);
            }
            i += 1;
        }
        None
    }

    /// The shortcut of an action, if it has one.
    pub fn get(&self, action_id: &str) -> (r: Option<&String>)
        ensures
            match r {
                Some(v) => self@.contains_key(action_id@) && v@ == self@[action_id@],
                None => !self@.contains_key(action_id@),
            },
    {
        proof {
            use_type_invariant(self);
        }
        let key = String::from_str(action_id);
        match self.position(&key) {
            Some(i) => {
                proof {
                    lemma_entries_map_at(self.entries@, i as int);
                }
                Some(&self.entries[i].1)
            },
            None => {
                proof {
                    lemma_entries_map_absent(self.entries@, action_id@);
                }
                None
            },
        }
    }

    /// Sets the shortcut of one action; the others stay as they were.
    pub fn insert(&mut self, action_id: String, shortcut: String)
        ensures
            final(self)@ == old(self)@.insert(action_id@, shortcut@),
    {
        proof {
            use_type_invariant(&*self);
        }
        match self.position(&action_id) {
            Some(i) => {
                proof {
                    lemma_entries_map_update(self.entries@, i as int, (action_id, shortcut));
                    let t = self.entries@.update(i as int, (action_id, shortcut));
                    assert forall|a: int, b: int| 0 <= a < b < t.len() implies (#[trigger] t[a]).0@ != (#[trigger] t[b]).0@ by {
                        if a != i as int && b != i as int {
                            assert(t[a] == self.entries@[a] && t[b] == self.entries@[b]);
                        } else if a == i as int {
                            assert(t[b] == self.entries@[b]);
                        } else {
                            assert(t[a] == self.entries@[a]);
                        }
                    }
                }
                let mut entries: Vec<(String, String)> = Vec::new();
                std::mem::swap(&mut entries, &mut self.entries);
                entries.set(i, (action_id, shortcut));
                self.entries = entries;
            },
            None => {
                proof {
                    let t = self.entries@.push((action_id, shortcut));
                    assert(t.drop_last() =~= self.entries@);
                    assert forall|a: int, b: int| 0 <= a < b < t.len() implies (#[trigger] t[a]).0@ != (#[trigger] t[b]).0@ by {
                        assert(t[a] == self.entries@[a]);
                        if b < self.entries@.len() {
                            assert(t[b] == self.entries@[b]);
                        }
                    }
                }
                let mut entries: Vec<(String, String)> = Vec::new();
                std::mem::swap(&mut entries, &mut self.entries);
                entries.push((action_id, shortcut));
                self.entries = entries;
            },
        }
    }

    /// The shortcuts as (action, shortcut) pairs, each action once.
    pub fn entries(&self) -> (r: &Vec<(String, String)>)
        ensures
            entries_map(r@) == self@,
            distinct_keys(r@),
    {
        proof {
            use_type_invariant(self);
        }
        &self.entries
    }

    /// The shortcuts that a list of pairs gives; a later pair wins over an
    /// earlier one for the same action.
    pub fn from_entries(pairs: Vec<(String, String)>) -> (s: Shortcuts)
        ensures
            s@ == entries_map(pairs@),
    {
        let ghost ps = pairs@;
        let mut s = Shortcuts::new();
        proof {
            assert(ps.take(0) =~= Seq::<(String, String)>::empty());
        }
        for pair in it: pairs
            invariant
                it.seq() == ps,
                s@ == entries_map(ps.take(it.index() as int)),
        {
            proof {
                let i = it.index() as int;
                assert(ps.take(i + 1).drop_last() =~= ps.take(i));
                assert(ps.take(i + 1).last() == pair);
            }
            let (action_id, shortcut) = pair;
            s.insert(action_id, shortcut);
        }
        proof {
            assert(ps.take(ps.len() as int) =~= ps);
        }
        s
    }
}

/// The shortcuts of a fresh installation.
pub open spec fn default_shortcut_map() -> Map<Seq<char>, Seq<char>> {
    Map::empty().insert("command_palette"@, "Mod+K"@).insert("cheatsheet"@, "Mod+/"@).insert(
        "focus_mode"@,
        "Mod+."@,
    ).insert("journal_prev_day"@, "Mod+ArrowUp"@).insert("journal_next_day"@, "Mod+ArrowDown"@)
}

/// The shortcuts of a fresh installation: command palette, cheat sheet,
/// focus mode, previous and next journal day.
pub fn default_shortcuts() -> (s: Shortcuts)
    ensures
        s@ == default_shortcut_map(),
{
    let mut s = Shortcuts::new();
    s.insert(String::from_str("command_palette"), String::from_str("Mod+K"));
    s.insert(String::from_str("cheatsheet"), String::from_str("Mod+/"));
    s.insert(String::from_str("focus_mode"), String::from_str("Mod+."));
    s.insert(String::from_str("journal_prev_day"), String::from_str("Mod+ArrowUp"));
    s.insert(String::from_str("journal_next_day"), String::from_str("Mod+ArrowDown"));
    s
}

/// Minutes between two automatic sync checks, by default.
pub fn default_git_sync_interval_minutes() -> (m: u32)
    ensures
        m == 10,
{
    10
}

/// Task rollover is on by default.
pub fn default_task_rollover_enabled() -> (b: bool)
    ensures
        b,
{
    true
}

/// Days looked back by the task rollover, by default.
pub fn default_task_rollover_days() -> (d: u32)
    ensures
        d == 7,
{
    7
}

// ---------------------------------------------------------------- settings

/// The settings of the application.
#[derive(Debug, Clone)]
pub struct Config {
    pub vault_path: String,
    pub theme: Theme,
    /// Shortcut of each action, by its stable id.
    pub shortcuts: Shortcuts,
    /// Minutes between two checks of the automatic Git sync.
    pub git_sync_interval_minutes: u32,
    /// Whether unfinished tasks of the last days move to today.
    pub task_rollover_enabled: bool,
    /// How many days before today the rollover looks at.
    pub task_rollover_days: u32,
}

/// The settings as values.
pub struct ConfigView {
    pub vault_path: Seq<char>,
    pub theme: Theme,
    pub shortcuts: Map<Seq<char>, Seq<char>>,
    pub git_sync_interval_minutes: u32,
    pub task_rollover_enabled: bool,
    pub task_rollover_days: u32,
}

impl View for Config {
    type V = ConfigView;

    open spec fn view(&self) -> ConfigView {
        ConfigView {
            vault_path: self.vault_path@,
            theme: self.theme,
            shortcuts: self.shortcuts@,
            git_sync_interval_minutes: self.git_sync_interval_minutes,
            task_rollover_enabled: self.task_rollover_enabled,
            task_rollover_days: self.task_rollover_days,
        }
    }
}

/// The settings file as it was found: each field that an older version
/// may not have written is optional, and `search_shortcut` is the single
/// shortcut that versions before the shortcut table stored.
pub struct StoredConfig {
    pub vault_path: String,
    pub theme: Option<Theme>,
    pub shortcuts: Option<Vec<(String, String)>>,
    pub search_shortcut: Option<String>,
    pub git_sync_interval_minutes: Option<u32>,
    pub task_rollover_enabled: Option<bool>,
    pub task_rollover_days: Option<u32>,
}

/// The settings of a fresh installation with its vault at `vault_path`.
pub open spec fn initial_view(vault_path: Seq<char>) -> ConfigView {
    ConfigView {
        vault_path,
        theme: Theme::System,
        shortcuts: default_shortcut_map(),
        git_sync_interval_minutes: 10,
        task_rollover_enabled: true,
        task_rollover_days: 7,
    }
}

/// The file holds the old single shortcut and no table: it is migrated.
pub open spec fn needs_migration(s: StoredConfig) -> bool {
    s.shortcuts is None && s.search_shortcut is Some
}

/// The settings that a stored file gives: each missing field takes its
/// default, and an old single shortcut becomes the command palette's, as
/// the only entry of the table.
pub open spec fn stored_view(s: StoredConfig) -> ConfigView {
    ConfigView {
        vault_path: s.vault_path@,
        theme: match s.theme {
            Some(t) => t,
            None => Theme::System,
        },
        shortcuts: match s.shortcuts {
            Some(v) => entries_map(v@),
            None => match s.search_shortcut {
                Some(old) => Map::empty().insert("command_palette"@, old@),
                None => default_shortcut_map(),
            },
        },
        git_sync_interval_minutes: match s.git_sync_interval_minutes {
            Some(m) => m,
            None => 10,
        },
        task_rollover_enabled: match s.task_rollover_enabled {
            Some(b) => b,
            None => true,
        },
        task_rollover_days: match s.task_rollover_days {
            Some(d) => d,
            None => 7,
        },
    }
}

impl Config {
    /// The settings of a fresh installation with its vault at `vault_path`.
    pub fn initial(vault_path: String) -> (c: Config)
        ensures
            c@ == initial_view(vault_path@),
    {
        Config {
            vault_path,
            theme: Theme::default(),
            shortcuts: default_shortcuts(),
            git_sync_interval_minutes: default_git_sync_interval_minutes(),
            task_rollover_enabled: default_task_rollover_enabled(),
            task_rollover_days: default_task_rollover_days(),
        }
    }

    /// The settings that a stored file gives, and whether the file must be
    /// written back because it was migrated from the old single shortcut
    /// (so that the migration runs once). A file already in the current
    /// form, or one without any shortcut field, is never rewritten.
    pub fn from_stored(stored: StoredConfig) -> (r: (Config, bool))
        ensures
            r.0@ == stored_view(stored),
            r.1 == needs_migration(stored),
    {
        let migrated = stored.shortcuts.is_none() && stored.search_shortcut.is_some();
        let shortcuts = match stored.shortcuts {
            Some(pairs) => Shortcuts::from_entries(pairs),
            None => match stored.search_shortcut {
                Some(old) => {
                    let mut s = Shortcuts::new();
                    s.insert(String::from_str("command_palette"), old);
                    s
                },
                None => default_shortcuts(),
            },
        };
        let theme = match stored.theme {
            Some(t) => t,
            None => Theme::default(),
        };
        let git_sync_interval_minutes = match stored.git_sync_interval_minutes {
            Some(m) => m,
            None => default_git_sync_interval_minutes(),
        };
        let task_rollover_enabled = match stored.task_rollover_enabled {
            Some(b) => b,
            None => default_task_rollover_enabled(),
        };
        let task_rollover_days = match stored.task_rollover_days {
            Some(d) => d,
            None => default_task_rollover_days(),
        };
        let config = Config {
            vault_path: stored.vault_path,
            theme,
            shortcuts,
            git_sync_interval_minutes,
            task_rollover_enabled,
            task_rollover_days,
        };
        (config, migrated)
    }

    /// What is written to the settings file: every field, in the current
    /// form.
    pub fn to_stored(&self) -> (s: StoredConfig)
        ensures
            s.vault_path@ == self.vault_path@,
            s.theme == Some(self.theme),
            s.shortcuts matches Some(v) && entries_map(v@) == self.shortcuts@,
            s.search_shortcut is None,
            s.git_sync_interval_minutes == Some(self.git_sync_interval_minutes),
            s.task_rollover_enabled == Some(self.task_rollover_enabled),
            s.task_rollover_days == Some(self.task_rollover_days),
    {
        let pairs = self.shortcuts.entries();
        let mut copy: Vec<(String, String)> = Vec::new();
        let n = pairs.len();
        for i in 0..n
            invariant
                n == pairs@.len(),
                copy@ == pairs@.take(i as int),
        {
            let action = pairs[i].0.clone();
            let shortcut = pairs[i].1.clone();
            copy.push((action, shortcut));
            proof {
                assert(pairs@.take(i + 1) == pairs@.take(i as int).push(pairs@[i as int]));
            }
        }
        proof {
            assert(pairs@.take(n as int) == pairs@);
        }
        StoredConfig {
            vault_path: self.vault_path.clone(),
            theme: Some(self.theme),
            shortcuts: Some(copy),
            search_shortcut: None,
            git_sync_interval_minutes: Some(self.git_sync_interval_minutes),
            task_rollover_enabled: Some(self.task_rollover_enabled),
            task_rollover_days: Some(self.task_rollover_days),
        }
    }

    /// The settings at start-up, from the settings file when there is one
    /// (`stored`), else those of a fresh installation with its vault at
    /// `default_vault_path`; and whether the file must be written: always
    /// for a fresh installation, after a migration otherwise.
    pub fn load_or_init(stored: Option<StoredConfig>, default_vault_path: String) -> (r: (Config, bool))
        ensures
            match stored {
                Some(s) => r.0@ == stored_view(s) && r.1 == needs_migration(s),
                None => r.0@ == initial_view(default_vault_path@) && r.1,
            },
    {
        match stored {
            Some(s) => Config::from_stored(s),
            None => (Config::initial(default_vault_path), true),
        }
    }

    /// Sets the vault folder.
    pub fn set_vault_path(&mut self, vault_path: String)
        ensures
            final(self)@ == (ConfigView { vault_path: vault_path@, ..old(self)@ }),
    {
        self.vault_path = vault_path;
    }

    /// Sets the theme.
    pub fn set_theme(&mut self, theme: Theme)
        ensures
            final(self)@ == (ConfigView { theme, ..old(self)@ }),
    {
        self.theme = theme;
    }

    /// Sets the shortcut of one action (a stable id such as
    /// `command_palette`); the other actions keep theirs.
    pub fn set_shortcut(&mut self, action_id: String, shortcut: String)
        ensures
            final(self)@ == (ConfigView {
                shortcuts: old(self)@.shortcuts.insert(action_id@, shortcut@),
                ..old(self)@
            }),
    {
        self.shortcuts.insert(action_id, shortcut);
    }

    /// Sets the interval of the automatic Git sync.
    pub fn set_git_sync_interval_minutes(&mut self, minutes: u32)
        ensures
            final(self)@ == (ConfigView { git_sync_interval_minutes: minutes, ..old(self)@ }),
    {
        self.git_sync_interval_minutes = minutes;
    }

    /// Turns the task rollover on or off and sets its window, together.
    pub fn set_task_rollover(&mut self, enabled: bool, days: u32)
        ensures
            final(self)@ == (ConfigView {
                task_rollover_enabled: enabled,
                task_rollover_days: days,
                ..old(self)@
            }),
    {
        self.task_rollover_enabled = enabled;
        self.task_rollover_days = days;
    }
}

/// Law: settings written to the file and read back are the same settings,
/// and reading them back asks for no further migration; so a migrated file,
/// once rewritten, is never migrated again.
pub proof fn law_stored_round_trip(c: ConfigView, s: StoredConfig)
    requires
        s.vault_path@ == c.vault_path,
        s.theme == Some(c.theme),
        s.shortcuts matches Some(v) && entries_map(v@) == c.shortcuts,
        s.search_shortcut is None,
        s.git_sync_interval_minutes == Some(c.git_sync_interval_minutes),
        s.task_rollover_enabled == Some(c.task_rollover_enabled),
        s.task_rollover_days == Some(c.task_rollover_days),
    ensures
        stored_view(s) == c,
        !needs_migration(s),
{
}

} // verus!
