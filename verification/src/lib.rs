pub mod agree;
pub mod assembly;
pub mod attention;
pub mod backend;
pub mod causal;
pub mod chain;
pub mod codec;
pub mod conv;
pub mod delta;
pub mod exact;
pub mod experts;
pub mod formulas;
pub mod heads;
pub mod le;
pub mod loading;
pub mod lookback;
pub mod mapper;
pub mod masking;
pub mod memory;
pub mod model;
pub mod moe;
pub mod naming;
pub mod norm;
pub mod ops;
pub mod passes;
pub mod pool;
pub mod positions;
pub mod prompt;
pub mod props;
pub mod ranges;
pub mod recurrence;
pub mod residual;
pub mod rows;
pub mod shape;
pub mod split;
pub mod ssm;
pub mod state;
pub mod tensor;
pub mod tokens;
pub mod topology;
pub mod wire;
pub mod worker;
