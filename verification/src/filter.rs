use vstd::prelude::*;
use regex::Regex;
use crate::archive::RGSSArchive;

verus! {

/// Whether the regular expression `pattern`, once compiled, matches anywhere
/// in `haystack`.
pub uninterp spec fn regex_is_match(pattern: Seq<char>, haystack: Seq<char>) -> bool;

/// `Regex::new` and then `Regex::is_match` of the regex crate: compiles
/// `filter` and searches `name` for a match. `None` says that the pattern was
/// not accepted. Where it was, the verdict depends on the pattern and the
/// name alone; nothing is claimed about which patterns are accepted.
#[verifier::external_body]
fn filter_matches(filter: &str, name: &str) -> (verdict: Option<bool>)
    ensures
        verdict matches Some(found) ==> found == regex_is_match(filter@, name@),
{
    match Regex::new(filter) {
        Ok(regex) => Some(regex.is_match(name)),
        Err(_) => None,
    }
}

/// The names among `names` that `filter` matches, in their order.
pub open spec fn matching(names: Seq<Seq<char>>, filter: Seq<char>) -> Seq<Seq<char>> {
    names.filter(|name: Seq<char>| regex_is_match(filter, name))
}

/// Adds `name` to `selected` where the verdict on it is `true`.
pub fn keep(selected: &mut Vec<String>, name: &String, verdict: bool)
    ensures
        final(selected).deep_view() == if verdict {
            old(selected).deep_view().push(name@)
        } else {
            old(selected).deep_view()
        },
{
    if verdict {
        selected.push(name.clone());
    }
}

impl RGSSArchive {
    /// The names of the entries that `filter` matches, in the order of the
    /// index. `None` where the pattern is not accepted.
    pub fn select(&self, filter: &str) -> (result: Option<Vec<String>>)
        ensures
            result matches Some(names) ==> names.deep_view() == matching(self.entry.names(), filter@),
            self.entry.names().len() == 0 ==> result.is_some(),
    {
        let mut selected: Vec<String> = Vec::new();
        let mut i: usize = 0;
        proof {
            reveal(Seq::filter);
        }
        while i < self.entry.entries.len()
            invariant
                i <= self.entry.entries.len(),
                selected.deep_view() == matching(self.entry.names().take(i as int), filter@),
            decreases self.entry.entries.len() - i,
        {
            let name: &String = &self.entry.entries[i].name;
            let verdict: bool = match filter_matches(filter, name.as_str()) {
                Some(found) => found,
                None => {
                    return None;
                },
            };
            keep(&mut selected, name, verdict);
            proof {
                reveal(Seq::filter);
                let names = self.entry.names();
                assert(names.take(i + 1).drop_last() =~= names.take(i as int));
            }
            i += 1;
        }
        assert(self.entry.names().take(i as int) =~= self.entry.names());
        Some(selected)
    }
}

} // verus!
