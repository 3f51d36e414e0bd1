pub mod accounts;
pub mod args;
pub mod arrivals;
pub mod conservation;
pub mod dealing;
pub mod delivery;
pub mod demo;
pub mod event;
pub mod figures;
pub mod finance;
pub mod fixed;
pub mod goods;
pub mod keeping;
pub mod laws;
pub mod market;
pub mod month;
pub mod naming;
pub mod number;
pub mod order;
pub mod power;
pub mod production;
pub mod quoting;
pub mod report;
pub mod rounding;
pub mod rounds;
pub mod route;
pub mod settlement;
pub mod settling;
pub mod shipment;
pub mod summary;
pub mod tables;
pub mod text;
pub mod trade;
pub mod trader;
pub mod trading;
pub mod world;
