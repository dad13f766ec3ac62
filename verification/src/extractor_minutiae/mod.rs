pub mod minutia_collector;
