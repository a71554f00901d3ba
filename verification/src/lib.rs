//! A spiking neural network evolved by a genetic algorithm: the network's
//! structure and schedule, and the bookkeeping of the gene pools.
pub mod table;
pub mod util;
pub mod scalar;
pub mod link;
pub mod node;
pub mod net;
pub mod feedback;
pub mod run;
pub mod clean;
pub mod mutate;
pub mod mutations;
pub mod gene;
pub mod ga;
pub mod gapool;
pub mod dataset;
pub mod fitness;
