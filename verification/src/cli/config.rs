//! Settings of the command line.

use vstd::prelude::*;

use crate::text::{
    before, copy_str, decimal, decimal_string, lemma_before_irreflexive, lemma_before_total,
    lemma_before_transitive, parse_number, same_text, text_before, unsigned_number,
};

verus! {

/// Settings: two that the program knows, and others.
#[derive(Debug)]
pub struct Config {
    /// Output format to use where none is named.
    pub default_format: String,
    /// Largest number of results where none is named.
    pub default_limit: Option<usize>,
    settings: Vec<(String, String)>,
}

/// Settings with their texts as sequences.
#[verifier::ext_equal]
pub struct ConfigView {
    /// Output format to use where none is named.
    pub default_format: Seq<char>,
    /// Largest number of results where none is named.
    pub default_limit: Option<usize>,
    /// Other settings.
    pub settings: Map<Seq<char>, Seq<char>>,
}

/// Names and values of some settings.
pub open spec fn setting_views(s: Seq<(String, String)>) -> Seq<(Seq<char>, Seq<char>)> {
    s.map_values(|e: (String, String)| (e.0@, e.1@))
}

/// Whether names ascend.
pub open spec fn ascending(s: Seq<(Seq<char>, Seq<char>)>) -> bool {
    forall|i: int, j: int| 0 <= i < j < s.len() ==> before(#[trigger] s[i].0, #[trigger] s[j].0)
}

/// Whether a setting stands in a list.
pub open spec fn listed(s: Seq<(Seq<char>, Seq<char>)>, key: Seq<char>) -> bool {
    exists|i: int| 0 <= i < s.len() && (#[trigger] s[i]).0 == key
}

/// The settings of a list under their names.
pub open spec fn setting_map(s: Seq<(Seq<char>, Seq<char>)>) -> Map<Seq<char>, Seq<char>> {
    Map::new(
        |key: Seq<char>| listed(s, key),
        |key: Seq<char>| s[choose|i: int| 0 <= i < s.len() && (#[trigger] s[i]).0 == key].1,
    )
}

/// The settings of a list under their names, where the last value of a name counts.
pub open spec fn collected(s: Seq<(Seq<char>, Seq<char>)>) -> Map<Seq<char>, Seq<char>>
    decreases s.len(),
{
    if s.len() == 0 {
        Map::empty()
    } else {
        collected(s.drop_last()).insert(s.last().0, s.last().1)
    }
}

/// The limit that a text names.
pub open spec fn limit_of(value: Seq<char>) -> Option<usize> {
    match unsigned_number(value) {
        Some(n) => if n <= usize::MAX {
            Some(n as usize)
        } else {
            None
        },
        None => None,
    }
}

impl ConfigView {
    /// The settings with one of them changed.
    pub open spec fn with(self, key: Seq<char>, value: Seq<char>) -> ConfigView {
        if key == "default_format"@ {
            ConfigView { default_format: value, ..self }
        } else if key == "default_limit"@ {
            ConfigView { default_limit: limit_of(value), ..self }
        } else {
            ConfigView { settings: self.settings.insert(key, value), ..self }
        }
    }

    /// The value of a setting.
    pub open spec fn value(self, key: Seq<char>) -> Option<Seq<char>> {
        if key == "default_format"@ {
            Some(self.default_format)
        } else if key == "default_limit"@ {
            match self.default_limit {
                Some(n) => Some(decimal(n as nat)),
                None => None,
            }
        } else if self.settings.dom().contains(key) {
            Some(self.settings[key])
        } else {
            None
        }
    }
}

impl View for Config {
    type V = ConfigView;

    closed spec fn view(&self) -> ConfigView {
        ConfigView {
            default_format: self.default_format@,
            default_limit: self.default_limit,
            settings: setting_map(setting_views(self.settings@)),
        }
    }
}

impl Default for Config {
    fn default() -> (r: Self)
        ensures
            r.valid(),
            r@ == (ConfigView {
                default_format: Seq::empty(),
                default_limit: None,
                settings: Map::empty(),
            }),
    {
        let r = Config {
            default_format: String::new(),
            default_limit: None,
            settings: Vec::new(),
        };
        assert(r@.settings =~= Map::<Seq<char>, Seq<char>>::empty());
        assert(r.default_format@ =~= Seq::<char>::empty());
        r
    }
}

impl Config {
    /// Whether the names of the other settings ascend.
    pub closed spec fn valid(&self) -> bool {
        ascending(setting_views(self.settings@))
    }

    /// Position of a setting, or where it belongs.
    fn place_of(&self, key: &str) -> (r: usize)
        requires
            self.valid(),
        ensures
            r <= self.settings@.len(),
            forall|i: int|
                0 <= i < r ==> before((#[trigger] setting_views(self.settings@)[i]).0, key@),
            forall|i: int|
                r <= i < self.settings@.len() ==> !before(
                    (#[trigger] setting_views(self.settings@)[i]).0,
                    key@,
                ),
    {
        let ghost s = setting_views(self.settings@);
        let mut i: usize = 0;
        while i < self.settings.len() && text_before(self.settings[i].0.as_str(), key)
            invariant
                i <= self.settings@.len(),
                s == setting_views(self.settings@),
                forall|k: int| 0 <= k < i ==> before((#[trigger] s[k]).0, key@),
            decreases self.settings@.len() - i,
        {
            i = i + 1;
        }
        assert forall|k: int| i <= k < s.len() implies !before((#[trigger] s[k]).0, key@) by {
            if before(s[k].0, key@) && i < k {
                assert(before(s[i as int].0, s[k].0));
                lemma_before_transitive(s[i as int].0, s[k].0, key@);
            }
        }
        i
    }

    /// Whether there is a setting at its place.
    fn found(&self, at: usize, key: &str) -> (r: bool)
        requires
            self.valid(),
            at <= self.settings@.len(),
            forall|i: int|
                0 <= i < at ==> before((#[trigger] setting_views(self.settings@)[i]).0, key@),
            forall|i: int|
                at <= i < self.settings@.len() ==> !before(
                    (#[trigger] setting_views(self.settings@)[i]).0,
                    key@,
                ),
        ensures
            r == (at < self.settings@.len() && self.settings@[at as int].0@ == key@),
            r == self@.settings.dom().contains(key@),
            r ==> self@.settings[key@] == self.settings@[at as int].1@,
    {
        let ghost s = setting_views(self.settings@);
        let r: bool = at < self.settings.len() && same_text(self.settings[at].0.as_str(), key);
        proof {
            assert forall|i: int| 0 <= i < s.len() && (#[trigger] s[i]).0 == key@ implies i
                == at by {
                lemma_before_irreflexive(key@);
                if at < i {
                    assert(before(s[at as int].0, s[i].0));
                    assert(!before(s[at as int].0, key@));
                }
            }
            if r {
                assert(s[at as int].0 == key@);
                assert(listed(s, key@));
            }
        }
        r
    }

    /// Copies the other settings.
    fn copy_settings(&self) -> (r: Vec<(String, String)>)
        ensures
            setting_views(r@) == setting_views(self.settings@),
    {
        let mut r: Vec<(String, String)> = Vec::new();
        let mut i: usize = 0;
        while i < self.settings.len()
            invariant
                i <= self.settings@.len(),
                setting_views(r@) == setting_views(self.settings@.take(i as int)),
            decreases self.settings@.len() - i,
        {
            let e = &self.settings[i];
            let ghost before_push = setting_views(r@);
            r.push((copy_str(e.0.as_str()), copy_str(e.1.as_str())));
            assert(setting_views(r@) =~= before_push.push((e.0@, e.1@)));
            assert(setting_views(self.settings@.take(i + 1)) =~= before_push.push((e.0@, e.1@)));
            i = i + 1;
        }
        assert(self.settings@.take(i as int) =~= self.settings@);
        r
    }

    /// Sets one of the other settings.
    fn insert_setting(&mut self, key: &str, value: &str)
        requires
            old(self).valid(),
        ensures
            final(self).valid(),
            final(self)@ == (ConfigView {
                settings: old(self)@.settings.insert(key@, value@),
                ..old(self)@
            }),
    {
        let ghost s = setting_views(self.settings@);
        let at: usize = self.place_of(key);
        if self.found(at, key) {
            self.settings.set(at, (copy_str(key), copy_str(value)));
            proof {
                let now = setting_views(self.settings@);
                assert(now =~= s.update(at as int, (key@, value@)));
                lemma_changed(s, at as int, key@, value@);
            }
        } else {
            self.settings.insert(at, (copy_str(key), copy_str(value)));
            proof {
                let now = setting_views(self.settings@);
                assert(now =~= s.insert(at as int, (key@, value@)));
                lemma_inserted(s, at as int, key@, value@);
            }
        }
    }

    /// Settings as they were stored. Of several values of one setting the last counts.
    pub fn stored(
        default_format: String,
        default_limit: Option<usize>,
        settings: &[(String, String)],
    ) -> (r: Config)
        ensures
            r.valid(),
            r@ == (ConfigView {
                default_format: default_format@,
                default_limit,
                settings: collected(setting_views(settings@)),
            }),
    {
        let mut r = Config { default_format, default_limit, settings: Vec::new() };
        assert(r@.settings =~= Map::<Seq<char>, Seq<char>>::empty());
        let mut i: usize = 0;
        while i < settings.len()
            invariant
                i <= settings@.len(),
                r.valid(),
                r@.default_format == default_format@,
                r@.default_limit == default_limit,
                r@.settings == collected(setting_views(settings@.take(i as int))),
            decreases settings@.len() - i,
        {
            let ghost now = setting_views(settings@.take(i + 1));
            assert(now.drop_last() =~= setting_views(settings@.take(i as int)));
            assert(now.last() == (settings@[i as int].0@, settings@[i as int].1@));
            r.insert_setting(settings[i].0.as_str(), settings[i].1.as_str());
            i = i + 1;
        }
        assert(settings@.take(i as int) =~= settings@);
        r
    }

    /// The settings with one of them changed.
    pub fn set(&self, key: &str, value: &str) -> (r: Config)
        requires
            self.valid(),
        ensures
            r.valid(),
            r@ == self@.with(key@, value@),
    {
        let settings = self.copy_settings();
        let mut default_format = copy_str(self.default_format.as_str());
        let mut default_limit: Option<usize> = self.default_limit;
        if same_text(key, "default_format") {
            default_format = copy_str(value);
        } else if same_text(key, "default_limit") {
            default_limit = match parse_number(value, usize::MAX as u64) {
                Some(n) => Some(n as usize),
                None => None,
            };
        } else {
            let mut r = Config { default_format, default_limit, settings };
            r.insert_setting(key, value);
            assert(r@ =~= self@.with(key@, value@));
            return r;
        }
        let r = Config { default_format, default_limit, settings };
        assert(r@ =~= self@.with(key@, value@));
        r
    }

    /// The value of a setting.
    pub fn get(&self, key: &str) -> (r: Option<String>)
        requires
            self.valid(),
        ensures
            (match r {
                Some(t) => Some(t@),
                None => None,
            }) == self@.value(key@),
    {
        if same_text(key, "default_format") {
            return Some(copy_str(self.default_format.as_str()));
        }
        if same_text(key, "default_limit") {
            return match self.default_limit {
                Some(n) => Some(decimal_string(n as u64)),
                None => None,
            };
        }
        let at: usize = self.place_of(key);
        if self.found(at, key) {
            Some(copy_str(self.settings[at].1.as_str()))
        } else {
            None
        }
    }

    /// The other settings, names ascending.
    pub fn custom(&self) -> (r: Vec<(String, String)>)
        requires
            self.valid(),
        ensures
            ascending(setting_views(r@)),
            setting_map(setting_views(r@)) == self@.settings,
    {
        self.copy_settings()
    }

    /// The output format to show: a table where none is set.
    pub fn shown_format(&self) -> (r: String)
        ensures
            r@ == (if self@.default_format.len() == 0 {
                "table"@
            } else {
                self@.default_format
            }),
    {
        if same_text(self.default_format.as_str(), "") {
            proof {
                reveal_strlit("");
            }
            copy_str("table")
        } else {
            proof {
                reveal_strlit("");
                assert(self.default_format@.len() == 0 ==> self.default_format@ =~= ""@);
            }
            copy_str(self.default_format.as_str())
        }
    }

    /// The limit to show: 1000 where none is set.
    pub fn shown_limit(&self) -> (r: String)
        ensures
            r@ == decimal(
                match self@.default_limit {
                    Some(n) => n as nat,
                    None => 1000,
                },
            ),
    {
        match self.default_limit {
            Some(n) => decimal_string(n as u64),
            None => decimal_string(1000),
        }
    }
}

proof fn lemma_changed(s: Seq<(Seq<char>, Seq<char>)>, at: int, key: Seq<char>, value: Seq<char>)
    requires
        ascending(s),
        0 <= at < s.len(),
        s[at].0 == key,
    ensures
        ascending(s.update(at, (key, value))),
        setting_map(s.update(at, (key, value))) == setting_map(s).insert(key, value),
{
    let now = s.update(at, (key, value));
    assert forall|i: int, j: int| 0 <= i < j < now.len() implies before(
        #[trigger] now[i].0,
        #[trigger] now[j].0,
    ) by {
        assert(now[i].0 == s[i].0 && now[j].0 == s[j].0);
        assert(before(s[i].0, s[j].0));
    }
    lemma_setting_at(now, at);
    assert forall|k: Seq<char>| listed(now, k) == listed(s, k) by {
        if listed(now, k) {
            let i = choose|i: int| 0 <= i < now.len() && (#[trigger] now[i]).0 == k;
            assert(s[i].0 == k);
        }
        if listed(s, k) {
            let i = choose|i: int| 0 <= i < s.len() && (#[trigger] s[i]).0 == k;
            assert(now[i].0 == k);
        }
    }
    assert(listed(s, key));
    assert forall|k: Seq<char>| #[trigger] listed(now, k) implies setting_map(now)[k]
        == setting_map(s).insert(key, value)[k] by {
        if k != key {
            let i = choose|i: int| 0 <= i < now.len() && (#[trigger] now[i]).0 == k;
            assert(s[i].0 == k);
            lemma_setting_at(now, i);
            lemma_setting_at(s, i);
        }
    }
    assert(setting_map(now) =~= setting_map(s).insert(key, value));
}

proof fn lemma_inserted(s: Seq<(Seq<char>, Seq<char>)>, at: int, key: Seq<char>, value: Seq<char>)
    requires
        ascending(s),
        0 <= at <= s.len(),
        !listed(s, key),
        forall|i: int| 0 <= i < at ==> before((#[trigger] s[i]).0, key),
        forall|i: int| at <= i < s.len() ==> !before((#[trigger] s[i]).0, key),
    ensures
        ascending(s.insert(at, (key, value))),
        setting_map(s.insert(at, (key, value))) == setting_map(s).insert(key, value),
{
    let now = s.insert(at, (key, value));
    assert forall|i: int| at <= i < s.len() implies before(key, (#[trigger] s[i]).0) by {
        lemma_before_total(key, s[i].0);
        assert(s[i].0 != key);
    }
    assert forall|i: int, j: int| 0 <= i < j < now.len() implies before(
        #[trigger] now[i].0,
        #[trigger] now[j].0,
    ) by {
        let a = if i < at {
            i
        } else {
            i - 1
        };
        let b = if j < at {
            j
        } else {
            j - 1
        };
        if i != at && j != at {
            assert(now[i] == s[a] && now[j] == s[b]);
            assert(before(s[a].0, s[b].0));
        } else if i == at {
            assert(now[j] == s[b]);
        } else {
            assert(now[i] == s[a]);
        }
    }
    assert(now[at].0 == key);
    lemma_setting_at(now, at);
    assert forall|k: Seq<char>| #[trigger] listed(now, k) == (listed(s, k) || k == key) by {
        if listed(now, k) && k != key {
            let i = choose|i: int| 0 <= i < now.len() && (#[trigger] now[i]).0 == k;
            let a = if i < at {
                i
            } else {
                i - 1
            };
            assert(s[a].0 == k);
        }
        if listed(s, k) {
            let i = choose|i: int| 0 <= i < s.len() && (#[trigger] s[i]).0 == k;
            let b = if i < at {
                i
            } else {
                i + 1
            };
            assert(now[b].0 == k);
        }
    }
    assert forall|k: Seq<char>| #[trigger] listed(now, k) implies setting_map(now)[k]
        == setting_map(s).insert(key, value)[k] by {
        if k != key {
            assert(listed(s, k));
            let i = choose|i: int| 0 <= i < s.len() && (#[trigger] s[i]).0 == k;
            let b = if i < at {
                i
            } else {
                i + 1
            };
            assert(now[b] == s[i]);
            lemma_setting_at(now, b);
            lemma_setting_at(s, i);
        }
    }
    assert(setting_map(now) =~= setting_map(s).insert(key, value));
}

/// The map of an ascending list holds each of its settings.
proof fn lemma_setting_at(s: Seq<(Seq<char>, Seq<char>)>, i: int)
    requires
        ascending(s),
        0 <= i < s.len(),
    ensures
        listed(s, s[i].0),
        setting_map(s)[s[i].0] == s[i].1,
{
    let key = s[i].0;
    assert(listed(s, key));
    let c = choose|c: int| 0 <= c < s.len() && (#[trigger] s[c]).0 == key;
    lemma_before_irreflexive(key);
    if c < i {
        assert(before(s[c].0, s[i].0));
    } else if i < c {
        assert(before(s[i].0, s[c].0));
    }
}

/// A setting reads back as it was set, and the others keep their values. A limit reads back
/// as the number that was set.
pub proof fn law_set_reads_back(c: ConfigView, key: Seq<char>, value: Seq<char>, other: Seq<char>)
    ensures
        key != "default_limit"@ ==> c.with(key, value).value(key) == Some(value),
        key == "default_limit"@ ==> c.with(key, value).value(key) == (match limit_of(value) {
            Some(n) => Some(decimal(n as nat)),
            None => None,
        }),
        other != key ==> c.with(key, value).value(other) == c.value(other),
{
    reveal_strlit("default_format");
    reveal_strlit("default_limit");
    assert("default_format"@.len() != "default_limit"@.len());
}

/// Of settings with one name the last counts; a name that no setting has has no value.
pub proof fn law_last_setting_counts(s: Seq<(Seq<char>, Seq<char>)>, key: Seq<char>, i: int)
    ensures
        0 <= i < s.len() && s[i].0 == key && (forall|j: int|
            i < j < s.len() ==> (#[trigger] s[j]).0 != key) ==> collected(s).dom().contains(key)
            && collected(s)[key] == s[i].1,
        (forall|j: int| 0 <= j < s.len() ==> (#[trigger] s[j]).0 != key) ==> !collected(
            s,
        ).dom().contains(key),
    decreases s.len(),
{
    if s.len() > 0 {
        let head = s.drop_last();
        let n = s.len() - 1;
        law_last_setting_counts(head, key, i);
        if 0 <= i < n && s[i].0 == key && (forall|j: int|
            i < j < s.len() ==> (#[trigger] s[j]).0 != key) {
            assert(s[n].0 != key);
            assert(head[i] == s[i]);
            assert forall|j: int| i < j < head.len() implies (#[trigger] head[j]).0 != key by {
                assert(s[j].0 != key);
            }
        }
        if forall|j: int| 0 <= j < s.len() ==> (#[trigger] s[j]).0 != key {
            assert(s[n].0 != key);
            assert forall|j: int| 0 <= j < head.len() implies (#[trigger] head[j]).0 != key by {
                assert(s[j].0 != key);
            }
        }
    }
}

} // verus!
