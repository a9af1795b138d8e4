pub mod iprange;
