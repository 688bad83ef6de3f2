pub mod address;
pub mod address_laws;
pub mod address_map;
pub mod address_set;
pub mod anchored;
pub mod basic_block;
pub mod batch_writes;
pub mod block;
pub mod block_buckets;
pub mod block_holders;
pub mod block_index_writes;
pub mod block_laws;
pub mod block_table;
pub mod body;
pub mod call_graph;
pub mod coalesce;
pub mod codec;
pub mod flags;
pub mod flow;
pub mod flow_laws;
pub mod frame;
pub mod function;
pub mod function_laws;
pub mod function_table;
pub mod fx;
pub mod fx_ids;
pub mod id;
pub mod ids_by_address;
pub mod incomplete;
pub mod index_laws;
pub mod index_rebuild;
pub mod insn;
pub mod insn_laws;
pub mod intervals;
pub mod keyed_table;
pub mod location;
pub mod mark_laws;
pub mod normalise_laws;
pub mod order;
pub mod parse;
pub mod prepared;
pub mod prepared_writes;
pub mod problem;
pub mod problem_table;
pub mod provenance;
pub mod provenance_index;
pub mod provenance_laws;
pub mod query_laws;
pub mod range_ext;
pub mod range_set;
pub mod reach;
pub mod reference;
pub mod reference_index;
pub mod reference_staging;
pub mod runs;
pub mod segment;
pub mod small;
pub mod split_laws;
pub mod staged_queries;
pub mod staged_records;
pub mod staging;
pub mod staging_laws;
pub mod stored_ids;
pub mod stored_writes;
pub mod switch;
pub mod switch_table;
pub mod types;
