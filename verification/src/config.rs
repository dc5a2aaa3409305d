use vstd::prelude::*;

verus! {

/// The texts of a list of strings.
pub open spec fn strings_view(v: Seq<String>) -> Seq<Seq<char>> {
    v.map_values(|s: String| s@)
}

/// What a configuration holds.
pub struct ConfigView {
    pub metric: Seq<char>,
    pub data: Seq<Seq<char>>,
    pub path: Seq<char>,
    pub format: Seq<char>,
    pub method: Seq<char>,
    pub threshold: nat,
}

/// The settings of a tokenizer: how it is evaluated, on what data, where and how its
/// vocabulary is stored, and how the vocabulary is optimised.
#[derive(Debug)]
pub struct Config {
    metric: String,
    data: Vec<String>,
    path: String,
    format: String,
    method: String,
    threshold: usize,
}

/// One setting, with its new value.
#[derive(Debug)]
pub enum Cfg {
    Metric(String),
    Data(Vec<String>),
    Path(String),
    Format(String),
    Method(String),
    Threshold(usize),
}

impl View for Config {
    type V = ConfigView;

    closed spec fn view(&self) -> ConfigView {
        ConfigView {
            metric: self.metric@,
            data: strings_view(self.data@),
            path: self.path@,
            format: self.format@,
            method: self.method@,
            threshold: self.threshold as nat,
        }
    }
}

impl Clone for Config {
    fn clone(&self) -> (c: Config)
        ensures
            c@ == self@,
    {
        let data = self.data.clone();
        assert(strings_view(data@) =~= strings_view(self.data@)) by {
            assert forall|i: int| 0 <= i < data@.len() implies data@[i]@ == self.data@[i]@ by {
                assert(vstd::pervasive::cloned::<String>(self.data@[i], data@[i]));
            }
        }
        Config {
            metric: self.metric.clone(),
            data,
            path: self.path.clone(),
            format: self.format.clone(),
            method: self.method.clone(),
            threshold: self.threshold,
        }
    }
}

impl Clone for Cfg {
    fn clone(&self) -> (c: Cfg)
        ensures
            same_change(c, *self),
    {
        match self {
            Cfg::Metric(m) => Cfg::Metric(m.clone()),
            Cfg::Data(d) => {
                let copy = d.clone();
                assert(strings_view(copy@) =~= strings_view(d@)) by {
                    assert forall|i: int| 0 <= i < copy@.len() implies copy@[i]@ == d@[i]@ by {
                        assert(vstd::pervasive::cloned::<String>(d@[i], copy@[i]));
                    }
                }
                Cfg::Data(copy)
            },
            Cfg::Path(p) => Cfg::Path(p.clone()),
            Cfg::Format(f) => Cfg::Format(f.clone()),
            Cfg::Method(m) => Cfg::Method(m.clone()),
            Cfg::Threshold(t) => Cfg::Threshold(*t),
        }
    }
}

/// Whether two changes set the same setting to the same value.
pub open spec fn same_change(x: Cfg, y: Cfg) -> bool {
    match (x, y) {
        (Cfg::Metric(a), Cfg::Metric(b)) => a@ == b@,
        (Cfg::Data(a), Cfg::Data(b)) => strings_view(a@) == strings_view(b@),
        (Cfg::Path(a), Cfg::Path(b)) => a@ == b@,
        (Cfg::Format(a), Cfg::Format(b)) => a@ == b@,
        (Cfg::Method(a), Cfg::Method(b)) => a@ == b@,
        (Cfg::Threshold(a), Cfg::Threshold(b)) => a == b,
        _ => false,
    }
}

/// `v` with the one setting of `cfg` changed.
pub open spec fn apply_cfg(v: ConfigView, cfg: Cfg) -> ConfigView {
    match cfg {
        Cfg::Metric(m) => ConfigView { metric: m@, ..v },
        Cfg::Data(d) => ConfigView { data: strings_view(d@), ..v },
        Cfg::Path(p) => ConfigView { path: p@, ..v },
        Cfg::Format(f) => ConfigView { format: f@, ..v },
        Cfg::Method(m) => ConfigView { method: m@, ..v },
        Cfg::Threshold(t) => ConfigView { threshold: t as nat, ..v },
    }
}

impl Config {
    /// The default settings.
    pub open spec fn default_view() -> ConfigView {
        ConfigView {
            metric: "perplexity"@,
            data: Seq::empty(),
            path: "vocabulary.json"@,
            format: "json"@,
            method: "frequency"@,
            threshold: 10,
        }
    }

    /// A configuration with the given settings.
    pub fn new(
        metric: String,
        data: Vec<String>,
        path: String,
        format: String,
        method: String,
        threshold: usize,
    ) -> (c: Config)
        ensures
            c@ == (ConfigView {
                metric: metric@,
                data: strings_view(data@),
                path: path@,
                format: format@,
                method: method@,
                threshold: threshold as nat,
            }),
    {
        Config { metric, data, path, format, method, threshold }
    }

    /// The default settings: perplexity on no data, stored as json in
    /// "vocabulary.json", optimised by frequency with threshold 10.
    pub fn default() -> (c: Config)
        ensures
            c@ == Config::default_view(),
    {
        let c = Config {
            metric: "perplexity".to_owned(),
            data: Vec::new(),
            path: "vocabulary.json".to_owned(),
            format: "json".to_owned(),
            method: "frequency".to_owned(),
            threshold: 10,
        };
        assert(c@.data =~= Seq::<Seq<char>>::empty());
        c
    }

    /// The evaluation metric.
    pub fn metric(&self) -> (m: &str)
        ensures
            m@ == self@.metric,
    {
        self.metric.as_str()
    }

    /// The evaluation data.
    pub fn data(&self) -> (d: &Vec<String>)
        ensures
            strings_view(d@) == self@.data,
    {
        &self.data
    }

    /// Changes the one setting that `cfg` names.
    pub fn update(&mut self, cfg: Cfg)
        ensures
            final(self)@ == apply_cfg(old(self)@, cfg),
    {
        match cfg {
            Cfg::Metric(metric) => self.metric = metric,
            Cfg::Data(data) => self.data = data,
            Cfg::Path(path) => self.path = path,
            Cfg::Format(format) => self.format = format,
            Cfg::Method(method) => self.method = method,
            Cfg::Threshold(threshold) => self.threshold = threshold,
        }
    }
}

} // verus!

verus! {

/// Whether two changes name the same setting.
pub open spec fn same_setting(x: Cfg, y: Cfg) -> bool {
    match (x, y) {
        (Cfg::Metric(_), Cfg::Metric(_)) => true,
        (Cfg::Data(_), Cfg::Data(_)) => true,
        (Cfg::Path(_), Cfg::Path(_)) => true,
        (Cfg::Format(_), Cfg::Format(_)) => true,
        (Cfg::Method(_), Cfg::Method(_)) => true,
        (Cfg::Threshold(_), Cfg::Threshold(_)) => true,
        _ => false,
    }
}

/// Two changes of different settings give the same configuration in either order;
/// of two changes of the same setting, the later one wins.
pub proof fn law_update_twice(v: ConfigView, x: Cfg, y: Cfg)
    ensures
        !same_setting(x, y) ==> apply_cfg(apply_cfg(v, x), y) == apply_cfg(apply_cfg(v, y), x),
        same_setting(x, y) ==> apply_cfg(apply_cfg(v, x), y) == apply_cfg(v, y),
{
}

/// A change sets the one setting it names to its value and leaves every other
/// setting as it was.
pub proof fn law_update_sets_one(v: ConfigView, cfg: Cfg)
    ensures
        cfg matches Cfg::Metric(m) ==> apply_cfg(v, cfg) == (ConfigView { metric: m@, ..v }),
        cfg matches Cfg::Data(d) ==> apply_cfg(v, cfg).data == strings_view(d@) && apply_cfg(v, cfg)
            == (ConfigView { data: apply_cfg(v, cfg).data, ..v }),
        cfg matches Cfg::Data(d) ==> apply_cfg(v, cfg).data.len() == d@.len() && forall|i: int|
            0 <= i < d@.len() ==> #[trigger] apply_cfg(v, cfg).data[i] == d@[i]@,
        cfg matches Cfg::Path(x) ==> apply_cfg(v, cfg) == (ConfigView { path: x@, ..v }),
        cfg matches Cfg::Format(x) ==> apply_cfg(v, cfg) == (ConfigView { format: x@, ..v }),
        cfg matches Cfg::Method(x) ==> apply_cfg(v, cfg) == (ConfigView { method: x@, ..v }),
        cfg matches Cfg::Threshold(t) ==> apply_cfg(v, cfg) == (ConfigView { threshold: t as nat, ..v }),
{
}

} // verus!
