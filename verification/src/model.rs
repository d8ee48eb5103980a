use vstd::prelude::*;

verus! {

/// One finished cheese race of a player.
///
/// `pps` is the pieces-per-second figure of the run, held as an integer
/// key whose order is the numeric order of the figure: a larger key is a
/// faster run.
#[derive(Clone, Debug)]
pub struct CheeseRun {
    pub blocks: u32,
    pub date: String,
    pub replay: Option<String>,
    pub pps: u64,
}

/// A country as listed in the country-code table.
#[derive(Clone, Debug)]
pub struct Country {
    pub name: String,
    pub region: String,
    pub sub_region: String,
    pub intermediate_region: String,
    pub country_code: String,
}

/// The two-letter code of a country, read from the same table as [`Country`].
#[derive(Clone, Debug)]
pub struct CountryCode {
    pub alpha_2: String,
}

/// A ranked player: the name, the personal best and the country, if known.
#[derive(Clone, Debug)]
pub struct Player {
    pub name: String,
    pub pb: CheeseRun,
    pub country: Option<Country>,
}

/// The scraper's settings.
#[derive(Clone, Debug)]
pub struct Config {
    pub leaderboard_query_delay: u64,
    pub run_query_delay: u64,
    pub retry_query_delay: u64,
    pub between_query_delay: u64,
    pub max_leaderboard_players: Option<usize>,
    pub output_path: String,
}

/// A copy of an optional string, equal to it.
pub fn copy_opt_string(s: &Option<String>) -> (r: Option<String>)
    ensures
        r == *s,
{
    match s {
        Some(t) => Some(t.clone()),
        None => None,
    }
}

impl CheeseRun {
    /// A copy of this run, equal to it field by field.
    pub fn duplicate(&self) -> (r: CheeseRun)
        ensures
            r == *self,
    {
        CheeseRun {
            blocks: self.blocks,
            date: self.date.clone(),
            replay: copy_opt_string(&self.replay),
            pps: self.pps,
        }
    }
}

impl Country {
    /// A copy of this country, equal to it field by field.
    pub fn duplicate(&self) -> (r: Country)
        ensures
            r == *self,
    {
        Country {
            name: self.name.clone(),
            region: self.region.clone(),
            sub_region: self.sub_region.clone(),
            intermediate_region: self.intermediate_region.clone(),
            country_code: self.country_code.clone(),
        }
    }
}

impl Player {
    /// A copy of this player, equal to it field by field.
    pub fn duplicate(&self) -> (r: Player)
        ensures
            r == *self,
    {
        Player {
            name: self.name.clone(),
            pb: self.pb.duplicate(),
            country: match &self.country {
                Some(c) => Some(c.duplicate()),
                None => None,
            },
        }
    }
}

/// Returns the name as given, or `UNKNOWN` where the leaderboard has none.
pub fn name_or_unknown(name: Option<String>) -> (r: String)
    ensures
        r@ == match name {
            Some(n) => n@,
            None => "UNKNOWN"@,
        },
{
    match name {
        Some(n) => n,
        None => "UNKNOWN".to_string(),
    }
}

} // verus!
