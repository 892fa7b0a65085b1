//! Configuration values threaded through the pipeline: the site-level
//! settings the surrounding program loads from disk, and the parser's and
//! normalizer's own knobs with their defaults. Nothing here reads files;
//! the caller fills these in and passes them down.

use vstd::prelude::*;

use crate::doctor::NormalizePolicy;

verus! {

/// Where build outputs and inputs live.
#[derive(Debug, Clone, PartialEq, Eq)]
pub struct Build {
    pub out_folder: String,
    pub assets_folder: String,
    pub templates_folder: String,
}

/// The development server's settings.
#[derive(Debug, Clone, PartialEq, Eq)]
pub struct Server {
    pub port: u16,
}

/// The site-level configuration.
#[derive(Debug, Clone, PartialEq, Eq)]
pub struct Config {
    pub url: String,
    pub title: String,
    pub description: String,
    pub build: Build,
    pub server: Server,
}

impl Config {
    /// The normalization policy this configuration implies: the site title
    /// and description stand in for a document that lacks its own, with
    /// fixed non-empty fallbacks should those be empty too.
    pub fn policy(&self) -> (r: NormalizePolicy)
        ensures
            r.placeholder_title@.len() > 0,
            self.title@.len() > 0 ==> r.placeholder_title@ == self.title@,
            r.placeholder_description@.len() > 0,
            self.description@.len() > 0 ==> r.placeholder_description@ == self.description@,
    {
        let t = crate::text::text(self.title.as_str());
        let d = crate::text::text(self.description.as_str());
        let placeholder_title: Vec<char> = if t.len() > 0 {
            t
        } else {
            crate::text::text("untitled")
        };
        let placeholder_description: Vec<char> = if d.len() > 0 {
            d
        } else {
            crate::text::text("undescribed")
        };
        proof {
            reveal_strlit("untitled");
            reveal_strlit("undescribed");
        }
        NormalizePolicy { placeholder_title, placeholder_description }
    }
}

/// The keyword and priority sets the heading grammar recognizes.
#[derive(Debug, Clone, PartialEq, Eq)]
pub struct ParseConfig {
    pub keywords: Vec<Vec<char>>,
    pub priorities: Vec<char>,
}

/// The default keyword set.
pub fn default_keywords() -> (r: Vec<Vec<char>>)
    ensures
        r.deep_view() == seq!["TODO"@, "DONE"@],
{
    let mut out: Vec<Vec<char>> = Vec::new();
    out.push(crate::text::text("TODO"));
    out.push(crate::text::text("DONE"));
    proof {
        crate::text::lemma_deep_view_is_views(&out);
        assert(out.deep_view() =~= seq!["TODO"@, "DONE"@]);
    }
    out
}

/// The default priority characters.
pub fn default_priorities() -> (r: Vec<char>)
    ensures
        r@ == seq!['A', 'B', 'C'],
{
    let mut out: Vec<char> = Vec::new();
    out.push('A');
    out.push('B');
    out.push('C');
    proof {
        assert(out@ =~= seq!['A', 'B', 'C']);
    }
    out
}

/// The default parser configuration.
pub fn default_parse_config() -> (r: ParseConfig)
    ensures
        r.keywords.deep_view() == seq!["TODO"@, "DONE"@],
        r.priorities@ == seq!['A', 'B', 'C'],
{
    ParseConfig { keywords: default_keywords(), priorities: default_priorities() }
}

} // verus!
