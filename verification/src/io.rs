pub mod gfa1;
