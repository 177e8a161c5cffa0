pub mod energy;
