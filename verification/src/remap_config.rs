//! Remapping of URLs: rules that rewrite the URLs of an atlas, and URLs that
//! stand in for whole volumes.
use crate::text;
use vstd::prelude::*;

verus! {

/// The environment variable that names the file with the rules.
pub const ENV_VAR: &'static str = "VESUVIUS_REMAP_CONFIG";

/// A rule that lets URLs with a prefix through, and may replace that prefix.
#[derive(Debug)]
pub struct AtlasUrlRewrite {
    /// The usage that the rule is for; any, if none is given.
    pub usage: Option<String>,
    pub match_url_prefix: String,
    /// What replaces the prefix; nothing does, if none is given.
    pub rewrite_to: Option<String>,
}

/// The rules, and the URLs that stand in for volumes.
#[derive(Debug)]
pub struct RemapConfig {
    pub atlas_url_rewrites: Vec<AtlasUrlRewrite>,
    /// Volume ids and their URLs. Of two entries for one id the later counts.
    pub volume_overrides: Vec<(String, String)>,
}

impl AtlasUrlRewrite {
    /// Whether the rule is for this usage and URL.
    pub open spec fn applies(&self, usage: Seq<char>, url: Seq<char>) -> bool {
        &&& (self.usage matches Some(u) ==> u@ == usage)
        &&& text::occurs_at(url, self.match_url_prefix@, 0)
    }

    /// What the rule makes of a URL that it is for.
    pub open spec fn rewritten(&self, url: Seq<char>) -> Seq<char> {
        match self.rewrite_to {
            Some(to) => to@ + url.skip(self.match_url_prefix@.len() as int),
            None => url,
        }
    }

    fn matches_url(&self, usage: &str, url: &[char]) -> (r: bool)
        ensures
            r == self.applies(usage@, url@),
    {
        let usage_matches = match &self.usage {
            Some(u) => text::same_text(u.as_str(), usage),
            None => true,
        };
        let prefix = text::to_chars(self.match_url_prefix.as_str());
        usage_matches && text::starts_with(url, &prefix)
    }

    fn rewrite(&self, url: &[char]) -> (r: String)
        requires
            text::occurs_at(url@, self.match_url_prefix@, 0),
        ensures
            r@ == self.rewritten(url@),
    {
        match &self.rewrite_to {
            Some(to) => {
                let prefix = text::to_chars(self.match_url_prefix.as_str());
                let mut out = text::to_chars(to.as_str());
                let rest = text::slice_of(url, prefix.len(), url.len());
                assert(rest@ =~= url@.skip(prefix@.len() as int));
                text::push_slice(&mut out, &rest);
                text::from_chars(&out)
            },
            None => text::from_chars(url),
        }
    }
}

/// What the first rule from position `i` on that is for a usage and URL makes
/// of the URL; none if there is no such rule.
pub open spec fn rewrite_from(
    rules: Seq<AtlasUrlRewrite>,
    usage: Seq<char>,
    url: Seq<char>,
    i: int,
) -> Option<Seq<char>>
    decreases rules.len() - i,
{
    if i < 0 || i >= rules.len() {
        None
    } else if rules[i].applies(usage, url) {
        Some(rules[i].rewritten(url))
    } else {
        rewrite_from(rules, usage, url, i + 1)
    }
}

/// The URL that stands in for a volume, among the first `n` entries.
pub open spec fn override_among(entries: Seq<(String, String)>, id: Seq<char>, n: int) -> Option<
    Seq<char>,
>
    decreases n,
{
    if n <= 0 {
        None
    } else if entries[n - 1].0@ == id {
        Some(entries[n - 1].1@)
    } else {
        override_among(entries, id, n - 1)
    }
}

impl Default for RemapConfig {
    /// No rules.
    fn default() -> (c: RemapConfig)
        ensures
            c.atlas_url_rewrites@.len() == 0,
            c.volume_overrides@.len() == 0,
    {
        RemapConfig { atlas_url_rewrites: Vec::new(), volume_overrides: Vec::new() }
    }
}

impl RemapConfig {
    /// The rules in use: those in the slot, or else those that were read, or
    /// else none. The slot holds them from then on.
    pub fn get(slot: &mut Option<RemapConfig>, read: Option<RemapConfig>)
        ensures
            match (*old(slot), read) {
                (Some(c), _) => *final(slot) == Some(c),
                (None, Some(c)) => *final(slot) == Some(c),
                (None, None) => *final(slot) matches Some(c) && c.atlas_url_rewrites@.len() == 0
                    && c.volume_overrides@.len() == 0,
            },
    {
        if slot.is_none() {
            let loaded = match read {
                Some(c) => c,
                None => RemapConfig::default(),
            };
            *slot = Some(loaded);
        }
    }

    /// What the first rule for this usage and URL makes of the URL; none if no
    /// rule is for it.
    pub fn rewrite_atlas_url(&self, usage: &str, url: &str) -> (r: Option<String>)
        ensures
            match rewrite_from(self.atlas_url_rewrites@, usage@, url@, 0) {
                Some(t) => r matches Some(s) && s@ == t,
                None => r is None,
            },
    {
        let chars = text::to_chars(url);
        let rules = &self.atlas_url_rewrites;
        let mut i: usize = 0;
        while i < rules.len()
            invariant
                rules == &self.atlas_url_rewrites,
                chars@ == url@,
                i <= rules@.len(),
                rewrite_from(rules@, usage@, url@, 0) == rewrite_from(rules@, usage@, url@, i as int),
            decreases rules.len() - i,
        {
            if rules[i].matches_url(usage, &chars) {
                return Some(rules[i].rewrite(&chars));
            }
            i = i + 1;
        }
        None
    }

    /// The URL that stands in for a volume, if one does.
    pub fn volume_override_url(&self, volume_id: &str) -> (r: Option<&str>)
        ensures
            match override_among(
                self.volume_overrides@,
                volume_id@,
                self.volume_overrides@.len() as int,
            ) {
                Some(t) => r matches Some(s) && s@ == t,
                None => r is None,
            },
    {
        let entries = &self.volume_overrides;
        let mut i: usize = entries.len();
        while i > 0
            invariant
                entries == &self.volume_overrides,
                i <= entries@.len(),
                override_among(entries@, volume_id@, entries@.len() as int) == override_among(
                    entries@,
                    volume_id@,
                    i as int,
                ),
            decreases i,
        {
            if text::same_text(entries[i - 1].0.as_str(), volume_id) {
                return Some(entries[i - 1].1.as_str());
            }
            i = i - 1;
        }
        None
    }
}

/// Without rules no URL is rewritten and no volume replaced.
pub proof fn law_default_changes_nothing(config: RemapConfig, usage: Seq<char>, url: Seq<char>, id: Seq<char>)
    requires
        config.atlas_url_rewrites@.len() == 0,
        config.volume_overrides@.len() == 0,
    ensures
        rewrite_from(config.atlas_url_rewrites@, usage, url, 0) is None,
        override_among(config.volume_overrides@, id, config.volume_overrides@.len() as int) is None,
{
}

proof fn lemma_rewrite_from_first(
    rules: Seq<AtlasUrlRewrite>,
    usage: Seq<char>,
    url: Seq<char>,
    from: int,
    i: int,
)
    requires
        0 <= from <= i < rules.len(),
        rules[i].applies(usage, url),
        forall|j: int| from <= j < i ==> !(#[trigger] rules[j]).applies(usage, url),
    ensures
        rewrite_from(rules, usage, url, from) == Some(rules[i].rewritten(url)),
    decreases i - from,
{
    if from < i {
        assert(!rules[from].applies(usage, url));
        lemma_rewrite_from_first(rules, usage, url, from + 1, i);
    }
}

/// The first rule that is for a usage and URL decides; later ones do not
/// count.
pub proof fn law_first_rule_wins(
    rules: Seq<AtlasUrlRewrite>,
    usage: Seq<char>,
    url: Seq<char>,
    i: int,
)
    requires
        0 <= i < rules.len(),
        rules[i].applies(usage, url),
        forall|j: int| 0 <= j < i ==> !(#[trigger] rules[j]).applies(usage, url),
    ensures
        rewrite_from(rules, usage, url, 0) == Some(rules[i].rewritten(url)),
{
    lemma_rewrite_from_first(rules, usage, url, 0, i);
}

/// A rule is for the URLs of its usage that begin with its prefix, and puts its
/// replacement in the prefix's place, before what follows it.
pub proof fn law_prefix_is_replaced(rule: AtlasUrlRewrite, usage: Seq<char>, rest: Seq<char>)
    ensures
        ({
            let url = rule.match_url_prefix@ + rest;
            &&& rule.usage is None ==> rule.applies(usage, url)
            &&& rule.usage matches Some(u) ==> (rule.applies(usage, url) <==> u@ == usage)
            &&& rule.rewrite_to matches Some(to) ==> rule.rewritten(url) == to@ + rest
            &&& rule.rewrite_to is None ==> rule.rewritten(url) == url
        }),
{
    let prefix = rule.match_url_prefix@;
    let url = prefix + rest;
    assert(url.subrange(0, prefix.len() as int) =~= prefix);
    assert(url.skip(prefix.len() as int) =~= rest);
}

/// A rule is for no URL that does not begin with its prefix.
pub proof fn law_other_urls_are_left_alone(rule: AtlasUrlRewrite, usage: Seq<char>, url: Seq<char>, i: int)
    requires
        0 <= i < rule.match_url_prefix@.len(),
        i >= url.len() || url[i] != rule.match_url_prefix@[i],
    ensures
        !rule.applies(usage, url),
{
    let n = rule.match_url_prefix@.len() as int;
    if n <= url.len() {
        assert(url.subrange(0, n)[i] == url[i]);
    }
}

/// Of two entries for one volume the later counts, and an entry for another
/// volume changes nothing.
pub proof fn law_later_override_counts(entries: Seq<(String, String)>, entry: (String, String), id: Seq<char>)
    ensures
        ({
            let more = override_among(entries.push(entry), id, entries.len() as int + 1);
            &&& entry.0@ == id ==> more == Some(entry.1@)
            &&& entry.0@ != id ==> more == override_among(entries, id, entries.len() as int)
        }),
{
    if entry.0@ != id {
        lemma_override_among_front(entries, entry, id, entries.len() as int);
    }
}

proof fn lemma_override_among_front(entries: Seq<(String, String)>, entry: (String, String), id: Seq<char>, n: int)
    requires
        n <= entries.len(),
    ensures
        override_among(entries.push(entry), id, n) == override_among(entries, id, n),
    decreases n,
{
    if n > 0 {
        lemma_override_among_front(entries, entry, id, n - 1);
    }
}

} // verus!
