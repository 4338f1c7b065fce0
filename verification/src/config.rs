//! The static configuration: servers group categories, categories group
//! services. The grouping is presentational; the core treats the
//! configuration as a fully-validated, immutable input for the process
//! lifetime.

use vstd::prelude::*;

verus! {

pub struct Config {
    pub port: u16,
    pub database: String,
    pub servers: Vec<Server>,
}

pub struct Server {
    pub name: String,
    pub categories: Vec<Category>,
}

pub struct Category {
    pub name: String,
    pub services: Vec<Service>,
}

pub struct Service {
    pub id: u64,
    pub name: String,
    pub info: String,
    pub command: String,
}

/// The services of a run of categories, flattened in order.
pub open spec fn category_services(cats: Seq<Category>) -> Seq<Service>
    decreases cats.len(),
{
    if cats.len() == 0 {
        Seq::empty()
    } else {
        category_services(cats.drop_last()) + cats.last().services@
    }
}

/// Every service of the whole configuration, flattened in order.
pub open spec fn config_services(servers: Seq<Server>) -> Seq<Service>
    decreases servers.len(),
{
    if servers.len() == 0 {
        Seq::empty()
    } else {
        config_services(servers.drop_last()) + category_services(servers.last().categories@)
    }
}

pub proof fn lemma_category_services_take(cats: Seq<Category>, j: int)
    requires
        0 <= j < cats.len(),
    ensures
        category_services(cats.take(j + 1)) == category_services(cats.take(j))
            + cats[j].services@,
{
    assert(cats.take(j + 1).drop_last() =~= cats.take(j));
    assert(cats.take(j + 1).last() == cats[j]);
}

pub proof fn lemma_config_services_take(servers: Seq<Server>, j: int)
    requires
        0 <= j < servers.len(),
    ensures
        config_services(servers.take(j + 1)) == config_services(servers.take(j))
            + category_services(servers[j].categories@),
{
    assert(servers.take(j + 1).drop_last() =~= servers.take(j));
    assert(servers.take(j + 1).last() == servers[j]);
}

} // verus!
